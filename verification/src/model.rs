//! The precomputed adjacency relation between tile identifiers: for each
//! ordered pair (tile, direction), which tiles may sit on the neighbouring
//! cell in that direction. Matching is literal equality of interned edge
//! labels: tile `b` is permitted in direction `d` of tile `a` iff a's label
//! on side `d` equals b's label on the opposite side (no rotation or
//! mirroring). Derived once from a catalog and never mutated afterwards.

use vstd::prelude::*;

use crate::tiles::{dir_index, dir_of, opposite, Direction, SchemaError, TileCatalog};

verus! {

/// The per-direction tile adjacency relation, as one membership vector per
/// (tile, direction) pair: `compat[a][dir][b]` says tile `b` may sit in
/// that direction of tile `a`.
pub struct CompatibilityModel {
    pub n_tiles: usize,
    pub compat: Vec<Vec<Vec<bool>>>,
}

/// The defining rule: `b` may sit in direction `d` of `a` iff a's edge label
/// on side `d` equals b's edge label on the side facing it.
pub open spec fn matches_rule(cat: TileCatalog, a: int, d: Direction, b: int) -> bool {
    cat.edge_of(a, d) == cat.edge_of(b, opposite(d))
}

impl CompatibilityModel {
    pub open spec fn wf(self) -> bool {
        &&& self.compat@.len() == self.n_tiles
        &&& forall|a: int| 0 <= a < self.n_tiles ==> (#[trigger] self.compat@[a])@.len() == 4
        &&& forall|a: int, d: int|
            0 <= a < self.n_tiles && 0 <= d < 4 ==> (#[trigger] self.compat@[a]@[d])@.len()
                == self.n_tiles
    }

    /// Tile `b` is permitted on the neighbouring cell in direction `d` of a
    /// cell holding tile `a`.
    pub open spec fn allows(self, a: int, d: Direction, b: int) -> bool {
        self.compat@[a]@[dir_index(d)]@[b]
    }

    /// What `build` derives from a catalog: the relation agrees with the
    /// defining edge-label rule on every tile pair and direction.
    pub open spec fn is_model_of(self, cat: TileCatalog) -> bool {
        &&& self.wf()
        &&& self.n_tiles == cat.tiles@.len()
        &&& forall|a: int, d: Direction, b: int|
            0 <= a < self.n_tiles && 0 <= b < self.n_tiles ==> (#[trigger] self.allows(a, d, b))
                == matches_rule(cat, a, d, b)
    }

    /// Derives the adjacency relation of a validated catalog.
    pub fn from_catalog(cat: &TileCatalog) -> (m: CompatibilityModel)
        requires
            cat.wf(),
        ensures
            m.is_model_of(*cat),
    {
        let n = cat.tile_count();
        let mut compat: Vec<Vec<Vec<bool>>> = Vec::new();
        let mut a: usize = 0;
        while a < n
            invariant
                a <= n,
                n == cat.tiles@.len(),
                cat.wf(),
                compat@.len() == a,
                forall|aa: int| 0 <= aa < a ==> (#[trigger] compat@[aa])@.len() == 4,
                forall|aa: int, d: int|
                    0 <= aa < a && 0 <= d < 4 ==> (#[trigger] compat@[aa]@[d])@.len() == n,
                forall|aa: int, d: int, b: int|
                    0 <= aa < a && 0 <= d < 4 && 0 <= b < n ==> (#[trigger] compat@[aa]@[d]@[b])
                        == matches_rule(*cat, aa, dir_of(d), b),
            decreases n - a,
        {
            let mut dirs: Vec<Vec<bool>> = Vec::new();
            let mut di: usize = 0;
            while di < 4
                invariant
                    di <= 4,
                    a < n,
                    n == cat.tiles@.len(),
                    cat.wf(),
                    dirs@.len() == di,
                    forall|d: int| 0 <= d < di ==> (#[trigger] dirs@[d])@.len() == n,
                    forall|d: int, b: int|
                        0 <= d < di && 0 <= b < n ==> (#[trigger] dirs@[d]@[b]) == matches_rule(
                            *cat,
                            a as int,
                            dir_of(d),
                            b,
                        ),
                decreases 4 - di,
            {
                let d = Direction::from_index(di);
                let my_edge = cat.edge_label_id(a, d);
                let mut row: Vec<bool> = Vec::new();
                let mut b: usize = 0;
                while b < n
                    invariant
                        b <= n,
                        a < n,
                        n == cat.tiles@.len(),
                        cat.wf(),
                        dir_index(d) == di as int,
                        my_edge == cat.edge_of(a as int, d),
                        row@.len() == b,
                        forall|bb: int|
                            0 <= bb < b ==> (#[trigger] row@[bb]) == matches_rule(
                                *cat,
                                a as int,
                                d,
                                bb,
                            ),
                    decreases n - b,
                {
                    let other = cat.edge_label_id(b, d.flip());
                    row.push(my_edge == other);
                    b = b + 1;
                }
                proof {
                    assert(dir_of(di as int) == d);
                }
                dirs.push(row);
                di = di + 1;
            }
            compat.push(dirs);
            a = a + 1;
        }
        let m = CompatibilityModel { n_tiles: n, compat };
        proof {
            assert forall|aa: int, d: Direction, b: int|
                0 <= aa < m.n_tiles && 0 <= b < m.n_tiles implies (#[trigger] m.allows(aa, d, b))
                == matches_rule(*cat, aa, d, b) by {
                assert(dir_of(dir_index(d)) == d);
                assert(m.compat@[aa]@[dir_index(d)]@[b] == matches_rule(
                    *cat,
                    aa,
                    dir_of(dir_index(d)),
                    b,
                ));
            }
        }
        m
    }

    /// Builds the adjacency relation of a validated catalog. Always succeeds:
    /// schema faults are caught earlier, when the catalog itself is built.
    pub fn build(cat: &TileCatalog) -> (r: Result<CompatibilityModel, SchemaError>)
        requires
            cat.wf(),
        ensures
            r is Ok,
            r matches Ok(m) ==> m.is_model_of(*cat),
    {
        Ok(Self::from_catalog(cat))
    }

    pub fn tile_count(&self) -> (n: usize)
        ensures
            n == self.n_tiles,
    {
        self.n_tiles
    }

    /// Whether tile `b` may sit in direction `d` of tile `a`.
    pub fn is_compatible(&self, a: usize, d: Direction, b: usize) -> (r: bool)
        requires
            self.wf(),
            a < self.n_tiles,
            b < self.n_tiles,
        ensures
            r == self.allows(a as int, d, b as int),
    {
        let row = &self.compat[a];
        let row = &row[d.index()];
        row[b]
    }

    /// The set of tiles permitted in direction `d` of tile `a`, as a
    /// strictly increasing list of tile ids.
    pub fn compatible(&self, a: usize, d: Direction) -> (r: Vec<usize>)
        requires
            self.wf(),
            a < self.n_tiles,
        ensures
            forall|i: int|
                0 <= i < r@.len() ==> (#[trigger] r@[i]) < self.n_tiles && self.allows(
                    a as int,
                    d,
                    r@[i] as int,
                ),
            forall|b: int|
                0 <= b < self.n_tiles && self.allows(a as int, d, b) ==> exists|i: int|
                    0 <= i < r@.len() && (#[trigger] r@[i]) == b,
            forall|i: int, j: int| 0 <= i < j < r@.len() ==> r@[i] < r@[j],
    {
        let mut r: Vec<usize> = Vec::new();
        let mut b: usize = 0;
        while b < self.n_tiles
            invariant
                b <= self.n_tiles,
                self.wf(),
                a < self.n_tiles,
                forall|i: int|
                    0 <= i < r@.len() ==> (#[trigger] r@[i]) < b && self.allows(
                        a as int,
                        d,
                        r@[i] as int,
                    ),
                forall|bb: int|
                    0 <= bb < b && self.allows(a as int, d, bb) ==> exists|i: int|
                        0 <= i < r@.len() && (#[trigger] r@[i]) == bb,
                forall|i: int, j: int| 0 <= i < j < r@.len() ==> r@[i] < r@[j],
            decreases self.n_tiles - b,
        {
            let ghost r0 = r@;
            let c = self.is_compatible(a, d, b);
            if c {
                r.push(b);
            }
            proof {
                assert forall|bb: int| 0 <= bb <= b && self.allows(a as int, d, bb) implies exists|
                    i: int,
                |
                    0 <= i < r@.len() && (#[trigger] r@[i]) == bb by {
                    if bb == b as int {
                        assert(r@[r0.len() as int] == bb);
                    } else {
                        let i = choose|i: int| 0 <= i < r0.len() && (#[trigger] r0[i]) == bb;
                        assert(r@[i] == bb);
                    }
                }
            }
            b = b + 1;
        }
        r
    }
}

/// Every ordered tile pair is permitted in every direction: the relation of
/// a catalog whose facing edge labels always match, under which propagation
/// can never remove a candidate.
pub open spec fn all_compatible(m: CompatibilityModel) -> bool {
    forall|a: int, d: Direction, b: int|
        0 <= a < m.n_tiles && 0 <= b < m.n_tiles ==> #[trigger] m.allows(a, d, b)
}

/// Rebuilding the adjacency relation from one catalog always yields
/// bit-identical compatibility sets: any two models that satisfy the
/// defining rule for the same catalog agree on every membership vector.
pub proof fn lemma_model_deterministic(
    cat: TileCatalog,
    m1: CompatibilityModel,
    m2: CompatibilityModel,
)
    requires
        m1.is_model_of(cat),
        m2.is_model_of(cat),
    ensures
        m1.n_tiles == m2.n_tiles,
        m1.compat@.len() == m2.compat@.len(),
        forall|a: int, d: int|
            0 <= a < m1.n_tiles && 0 <= d < 4 ==> (#[trigger] m1.compat@[a]@[d])@
                == m2.compat@[a]@[d]@,
{
    assert forall|a: int, d: int| 0 <= a < m1.n_tiles && 0 <= d < 4 implies (
    #[trigger] m1.compat@[a]@[d])@ == m2.compat@[a]@[d]@ by {
        let dd = dir_of(d);
        assert(dir_index(dd) == d);
        assert forall|b: int| 0 <= b < m1.n_tiles implies m1.compat@[a]@[d]@[b]
            == m2.compat@[a]@[d]@[b] by {
            assert(m1.allows(a, dd, b) == matches_rule(cat, a, dd, b));
            assert(m2.allows(a, dd, b) == matches_rule(cat, a, dd, b));
        }
        assert(m1.compat@[a]@[d]@ =~= m2.compat@[a]@[d]@);
    }
}

} // verus!
