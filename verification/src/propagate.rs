//! Constraint propagation. Given a seed set of changed cells, removes
//! now-unsupported candidates from neighbours with a FIFO worklist until a
//! fixpoint is reached, or fails with the contradiction position the moment
//! a domain would become empty. Retrying is the solver's job, never done
//! here.

use vstd::prelude::*;

use crate::domain::{
    grid_tot, lemma_grid_tot_le, lemma_grid_tot_lt, lemma_popcnt_le, lemma_popcnt_lt,
    lemma_subset_trans, nonempty, popcnt, subset_of,
};
use crate::grid::{Contradiction, Grid, Pos};
use crate::model::CompatibilityModel;
use crate::tiles::Direction;

verus! {

/// The tiles allowed on the neighbour in direction `d` of a cell with domain
/// `src`: the union, over the candidates of `src`, of their compatible sets.
pub open spec fn allowed_union(m: CompatibilityModel, src: Seq<bool>, d: Direction) -> Seq<bool> {
    Seq::new(
        m.n_tiles as nat,
        |b: int|
            exists|t: int| 0 <= t < src.len() && #[trigger] src[t] && m.allows(t, d, b),
    )
}

/// The arc from `p` in direction `d` is consistent: the neighbour's domain
/// only holds tiles supported by some candidate at `p`.
pub open spec fn arc_ok(m: CompatibilityModel, g: Grid, p: Pos, d: Direction) -> bool {
    match g.nbr(p, d) {
        Option::Some(q) => subset_of(
            g.dom(q.x as int, q.y as int),
            allowed_union(m, g.dom(p.x as int, p.y as int), d),
        ),
        Option::None => true,
    }
}

/// Arc-consistency: every arc of the grid is consistent, so propagation has
/// nothing left to remove.
pub open spec fn stable(m: CompatibilityModel, g: Grid) -> bool {
    forall|p: Pos, d: Direction| g.in_bounds(p) ==> #[trigger] arc_ok(m, g, p, d)
}

/// `p` still awaits processing: it sits in the worklist at or past the cursor.
pub open spec fn pending_in(queue: Seq<Pos>, cursor: int, p: Pos) -> bool {
    exists|i: int| cursor <= i < queue.len() && queue[i] == p
}

/// Every arc whose source cell is not pending in the worklist is consistent.
pub open spec fn settled_except(
    m: CompatibilityModel,
    g: Grid,
    queue: Seq<Pos>,
    cursor: int,
) -> bool {
    forall|p: Pos, d: Direction|
        g.in_bounds(p) && !pending_in(queue, cursor, p) ==> #[trigger] arc_ok(m, g, p, d)
}

/// Every arc whose source cell is not a seed is consistent: what a caller
/// guarantees about a grid whose recent changes all lie in `seeds`.
pub open spec fn settled_except_seeds(m: CompatibilityModel, g: Grid, seeds: Seq<Pos>) -> bool {
    forall|p: Pos, d: Direction|
        g.in_bounds(p) && !seeds.contains(p) ==> #[trigger] arc_ok(m, g, p, d)
}

/// Under an all-compatible relation every consistent grid is already
/// arc-consistent: any candidate of any cell supports every neighbour.
pub proof fn lemma_all_compatible_stable(m: CompatibilityModel, g: Grid)
    requires
        g.wf(),
        g.n_tiles == m.n_tiles,
        g.all_nonempty(),
        crate::model::all_compatible(m),
    ensures
        stable(m, g),
{
    assert forall|p: Pos, d: Direction| g.in_bounds(p) implies #[trigger] arc_ok(m, g, p, d) by {
        match g.nbr(p, d) {
            Option::Some(q) => {
                assert(g.in_bounds(q));
                let src = g.dom(p.x as int, p.y as int);
                assert(nonempty(src));
                let t = choose|t: int| 0 <= t < src.len() && #[trigger] src[t];
                assert forall|b: int|
                    0 <= b < g.dom(q.x as int, q.y as int).len() && #[trigger] g.dom(
                        q.x as int,
                        q.y as int,
                    )[b] implies allowed_union(m, src, d)[b] by {
                    assert(src[t] && m.allows(t, d, b));
                }
            },
            Option::None => {},
        }
    }
}

/// Arc-consistency only depends on the domains: it carries over to any
/// equal-shaped grid with equal domains.
pub proof fn lemma_stable_eq(m: CompatibilityModel, g1: Grid, g2: Grid)
    requires
        stable(m, g1),
        g2.same_shape(g1),
        g2.dom_eq(g1),
    ensures
        stable(m, g2),
{
    assert forall|p: Pos, d: Direction| g2.in_bounds(p) implies #[trigger] arc_ok(m, g2, p, d) by {
        assert(arc_ok(m, g1, p, d));
        assert(g2.nbr(p, d) == g1.nbr(p, d));
        match g1.nbr(p, d) {
            Option::Some(q) => {
                assert(g1.in_bounds(q));
                assert(g2.dom(q.x as int, q.y as int) == g1.dom(q.x as int, q.y as int));
                assert(g2.dom(p.x as int, p.y as int) == g1.dom(p.x as int, p.y as int));
            },
            Option::None => {},
        }
    }
}

/// In a fully collapsed, arc-consistent grid, adjacency really holds: any
/// candidate of a cell is compatible with any candidate of each of its
/// neighbours, and with singleton domains that pins the solved tiles.
pub proof fn lemma_collapsed_neighbors_compatible(
    m: CompatibilityModel,
    g: Grid,
    p: Pos,
    q: Pos,
    d: Direction,
    tp: int,
    tq: int,
)
    requires
        g.wf(),
        g.n_tiles == m.n_tiles,
        stable(m, g),
        g.fully_collapsed(),
        g.in_bounds(p),
        g.nbr(p, d) == Option::Some(q),
        0 <= tp < m.n_tiles,
        0 <= tq < m.n_tiles,
        g.dom(p.x as int, p.y as int)[tp],
        g.dom(q.x as int, q.y as int)[tq],
    ensures
        m.allows(tp, d, tq),
{
    assert(arc_ok(m, g, p, d));
    assert(g.in_bounds(q));
    let src = g.dom(p.x as int, p.y as int);
    assert(allowed_union(m, src, d)[tq]);
    let t = choose|t: int| 0 <= t < src.len() && #[trigger] src[t] && m.allows(t, d, tq);
    if t != tp {
        crate::domain::lemma_popcnt_two(src, t, tp);
    }
}

/// Computes the membership vector of `allowed_union(m, src, d)`.
fn allowed_for(m: &CompatibilityModel, src: &Vec<bool>, d: Direction) -> (r: Vec<bool>)
    requires
        m.wf(),
        src@.len() == m.n_tiles,
    ensures
        r@ == allowed_union(*m, src@, d),
{
    let n = m.n_tiles;
    let mut r: Vec<bool> = Vec::new();
    let mut b: usize = 0;
    while b < n
        invariant
            b <= n,
            m.wf(),
            src@.len() == n,
            n == m.n_tiles,
            r@.len() == b,
            forall|bb: int| 0 <= bb < b ==> #[trigger] r@[bb] == allowed_union(*m, src@, d)[bb],
        decreases n - b,
    {
        let mut found = false;
        let mut t: usize = 0;
        while t < n
            invariant
                t <= n,
                m.wf(),
                src@.len() == n,
                n == m.n_tiles,
                b < n,
                found == exists|tt: int|
                    0 <= tt < t && #[trigger] src@[tt] && m.allows(tt, d, b as int),
            decreases n - t,
        {
            if src[t] && m.is_compatible(t, d, b) {
                found = true;
            }
            t = t + 1;
        }
        r.push(found);
        b = b + 1;
    }
    proof {
        assert(r@ =~= allowed_union(*m, src@, d));
    }
    r
}

/// Propagates domain reductions from the seed positions to a fixpoint.
///
/// Candidates are only ever removed, never added. On success no cell's
/// domain is empty; on `Contradiction` the reported cell's domain is empty.
/// Propagating an already-stable grid succeeds and changes no domain; and
/// when every arc not starting at a seed was consistent at entry, success
/// means the whole grid is arc-consistent.
pub fn propagate(m: &CompatibilityModel, g: &mut Grid, seeds: &Vec<Pos>) -> (r: Result<
    (),
    Contradiction,
>)
    requires
        m.wf(),
        old(g).wf(),
        old(g).n_tiles == m.n_tiles,
        old(g).all_nonempty(),
        forall|i: int| 0 <= i < seeds@.len() ==> old(g).in_bounds(#[trigger] seeds@[i]),
    ensures
        final(g).wf(),
        final(g).same_shape(*old(g)),
        final(g).domains_subset_of(*old(g)),
        r is Ok ==> final(g).all_nonempty(),
        r matches Err(c) ==> final(g).in_bounds(c.at) && !nonempty(
            final(g).dom(c.at.x as int, c.at.y as int),
        ),
        stable(*m, *old(g)) ==> r is Ok && final(g).dom_eq(*old(g)),
        settled_except_seeds(*m, *old(g), seeds@) && r is Ok ==> stable(*m, *final(g)),
{
    let mut queue: Vec<Pos> = Vec::new();
    let mut i: usize = 0;
    while i < seeds.len()
        invariant
            i <= seeds@.len(),
            forall|j: int| 0 <= j < seeds@.len() ==> old(g).in_bounds(#[trigger] seeds@[j]),
            queue@ == seeds@.take(i as int),
            g == old(g),
        decreases seeds@.len() - i,
    {
        queue.push(seeds[i]);
        proof {
            assert(seeds@.take(i + 1) =~= seeds@.take(i as int).push(seeds@[i as int]));
        }
        i = i + 1;
    }
    proof {
        assert(seeds@.take(seeds@.len() as int) =~= seeds@);
        if settled_except_seeds(*m, *g, seeds@) {
            assert forall|pp: Pos, dd: Direction|
                g.in_bounds(pp) && !pending_in(queue@, 0, pp) implies #[trigger] arc_ok(
                *m,
                *g,
                pp,
                dd,
            ) by {
                if seeds@.contains(pp) {
                    let w = choose|w: int| 0 <= w < seeds@.len() && seeds@[w] == pp;
                    assert(queue@[w] == pp);
                    assert(pending_in(queue@, 0, pp));
                }
            }
        }
    }
    let mut pending: Vec<Vec<bool>> = Vec::new();
    let mut y: usize = 0;
    while y < g.height
        invariant
            y <= g.height,
            g == old(g),
            pending@.len() == y,
            forall|yy: int| 0 <= yy < y ==> (#[trigger] pending@[yy])@.len() == g.width,
            forall|yy: int, xx: int|
                0 <= yy < y && 0 <= xx < g.width ==> !(#[trigger] pending@[yy]@[xx]),
        decreases g.height - y,
    {
        let mut prow: Vec<bool> = Vec::new();
        let mut x: usize = 0;
        while x < g.width
            invariant
                x <= g.width,
                g == old(g),
                prow@.len() == x,
                forall|xx: int| 0 <= xx < x ==> !(#[trigger] prow@[xx]),
            decreases g.width - x,
        {
            prow.push(false);
            x = x + 1;
        }
        pending.push(prow);
        y = y + 1;
    }
    let mut cursor: usize = 0;
    while cursor < queue.len()
        invariant
            m.wf(),
            g.wf(),
            g.same_shape(*old(g)),
            g.n_tiles == m.n_tiles,
            g.all_nonempty(),
            g.domains_subset_of(*old(g)),
            cursor <= queue@.len(),
            forall|j: int| 0 <= j < queue@.len() ==> old(g).in_bounds(#[trigger] queue@[j]),
            pending@.len() == old(g).height,
            forall|yy: int|
                0 <= yy < old(g).height ==> (#[trigger] pending@[yy])@.len() == old(g).width,
            forall|yy: int, xx: int|
                0 <= yy < old(g).height && 0 <= xx < old(g).width && #[trigger] pending@[yy]@[xx]
                    ==> pending_in(queue@, cursor as int, Pos { x: xx as usize, y: yy as usize }),
            stable(*m, *old(g)) ==> g.dom_eq(*old(g)),
            settled_except_seeds(*m, *old(g), seeds@) ==> settled_except(
                *m,
                *g,
                queue@,
                cursor as int,
            ),
        decreases grid_tot(g.cells@), queue@.len() - cursor,
    {
        let ghost cur0 = cursor as int;
        let ghost pend0 = pending@;
        let p = queue[cursor];
        cursor = cursor + 1;
        let prow = &mut pending[p.y];
        prow[p.x] = false;
        proof {
            // Flags still point at pending worklist entries: the only entry
            // the cursor passed is `p`, whose flag was just cleared.
            assert forall|yy: int, xx: int|
                0 <= yy < old(g).height && 0 <= xx < old(g).width && #[trigger] pending@[yy]@[xx]
                implies pending_in(queue@, cursor as int, Pos { x: xx as usize, y: yy as usize }) by {
                let pos = Pos { x: xx as usize, y: yy as usize };
                assert(pend0[yy]@[xx]);
                assert(pending_in(queue@, cur0, pos));
                let w = choose|w: int| cur0 <= w < queue@.len() && queue@[w] == pos;
                if w == cur0 {
                    assert(pos == p);
                    assert(!pending@[yy]@[xx]);
                } else {
                    assert(queue@[w] == pos && cursor <= w);
                }
            }
            if settled_except_seeds(*m, *old(g), seeds@) {
                assert forall|r: Pos, dd: Direction|
                    g.in_bounds(r) && !pending_in(queue@, cursor as int, r) && r != p
                    implies #[trigger] arc_ok(*m, *g, r, dd) by {
                    assert(!pending_in(queue@, cur0, r)) by {
                        if pending_in(queue@, cur0, r) {
                            let w = choose|w: int| cur0 <= w < queue@.len() && queue@[w] == r;
                            assert(w != cur0);
                            assert(pending_in(queue@, cursor as int, r));
                        }
                    }
                }
            }
        }
        let nbrs = g.neighbors(p);
        let ghost tot0 = grid_tot(g.cells@);
        let ghost qlen0 = queue@.len();
        proof {
            assert forall|j: int| 0 <= j < nbrs@.len() implies old(g).nbr(
                p,
                (#[trigger] nbrs@[j]).0,
            ) == Option::Some(nbrs@[j].1) && old(g).in_bounds(nbrs@[j].1) by {
                assert(g.nbr(p, nbrs@[j].0) == old(g).nbr(p, nbrs@[j].0));
                assert(g.in_bounds(nbrs@[j].1) == old(g).in_bounds(nbrs@[j].1));
            }
            assert forall|dd: Direction| old(g).nbr(p, dd) is Some implies exists|j: int|
                0 <= j < nbrs@.len() && (#[trigger] nbrs@[j]) == (dd, old(g).nbr(p, dd)->Some_0) by {
                assert(g.nbr(p, dd) == old(g).nbr(p, dd));
            }
        }
        let mut k: usize = 0;
        while k < nbrs.len()
            invariant
                k <= nbrs@.len(),
                m.wf(),
                g.wf(),
                g.same_shape(*old(g)),
                g.n_tiles == m.n_tiles,
                g.all_nonempty(),
                g.domains_subset_of(*old(g)),
                old(g).in_bounds(p),
                cursor <= qlen0,
                cursor <= queue@.len(),
                forall|j: int|
                    0 <= j < nbrs@.len() ==> old(g).nbr(p, (#[trigger] nbrs@[j]).0)
                        == Option::Some(nbrs@[j].1) && old(g).in_bounds(nbrs@[j].1),
                forall|dd: Direction|
                    old(g).nbr(p, dd) is Some ==> exists|j: int|
                        0 <= j < nbrs@.len() && (#[trigger] nbrs@[j]) == (
                        dd,
                        old(g).nbr(p, dd)->Some_0,
                        ),
                forall|j: int| 0 <= j < queue@.len() ==> old(g).in_bounds(#[trigger] queue@[j]),
                pending@.len() == old(g).height,
                forall|yy: int|
                    0 <= yy < old(g).height ==> (#[trigger] pending@[yy])@.len() == old(g).width,
                forall|yy: int, xx: int|
                    0 <= yy < old(g).height && 0 <= xx < old(g).width && #[trigger] pending@[yy]@[xx]
                        ==> pending_in(
                        queue@,
                        cursor as int,
                        Pos { x: xx as usize, y: yy as usize },
                    ),
                grid_tot(g.cells@) <= tot0,
                queue@.len() >= qlen0,
                queue@.len() > qlen0 ==> grid_tot(g.cells@) < tot0,
                stable(*m, *old(g)) ==> g.dom_eq(*old(g)),
                settled_except_seeds(*m, *old(g), seeds@) ==> forall|r: Pos, dd: Direction|
                    g.in_bounds(r) && !pending_in(queue@, cursor as int, r) && r != p
                        ==> #[trigger] arc_ok(*m, *g, r, dd),
                settled_except_seeds(*m, *old(g), seeds@) ==> forall|j: int|
                    0 <= j < k ==> subset_of(
                        g.dom(
                            ((#[trigger] nbrs@[j]).1).x as int,
                            (nbrs@[j].1).y as int,
                        ),
                        allowed_union(*m, g.dom(p.x as int, p.y as int), nbrs@[j].0),
                    ),
            decreases nbrs@.len() - k,
        {
            let d = nbrs[k].0;
            let q = nbrs[k].1;
            proof {
                assert(q != p) by {
                    assert(old(g).nbr(p, d) == Option::Some(q));
                }
            }
            let allowed = allowed_for(m, g.domain_at(p), d);
            let ghost gpre = *g;
            let ghost qpre = queue@;
            let ghost pendpre = pending@;
            let res = g.restrict(q, &allowed);
            proof {
                // Candidates only shrink, cell by cell.
                assert forall|x: int, y2: int|
                    0 <= x < g.width && 0 <= y2 < g.height implies subset_of(
                    #[trigger] g.dom(x, y2),
                    gpre.dom(x, y2),
                ) by {
                    if !(x == q.x as int && y2 == q.y as int) {
                        assert(g.dom(x, y2) == gpre.dom(x, y2));
                    }
                }
                assert forall|x: int, y2: int|
                    0 <= x < g.width && 0 <= y2 < g.height implies subset_of(
                    #[trigger] g.dom(x, y2),
                    old(g).dom(x, y2),
                ) by {
                    lemma_subset_trans(g.dom(x, y2), gpre.dom(x, y2), old(g).dom(x, y2));
                }
                // Under a stable starting grid the restriction removes
                // nothing: the arc was already consistent.
                if stable(*m, *old(g)) {
                    assert(arc_ok(*m, *old(g), p, d));
                    assert(old(g).nbr(p, d) == Option::Some(q));
                    assert(gpre.dom(q.x as int, q.y as int) == old(g).dom(q.x as int, q.y as int));
                    assert(gpre.dom(p.x as int, p.y as int) == old(g).dom(p.x as int, p.y as int));
                    assert(allowed@ == allowed_union(*m, old(g).dom(p.x as int, p.y as int), d));
                    assert(subset_of(gpre.dom(q.x as int, q.y as int), allowed@));
                    assert(g.dom(q.x as int, q.y as int) =~= gpre.dom(q.x as int, q.y as int));
                }
            }
            match res {
                Result::Err(c) => {
                    proof {
                        if stable(*m, *old(g)) {
                            assert(nonempty(gpre.dom(q.x as int, q.y as int)));
                            assert(false);
                        }
                    }
                    return Err(c);
                },
                Result::Ok(changed) => {
                    proof {
                        // Consistency is kept: only the restricted cell
                        // changed and it stayed nonempty.
                        assert forall|x: int, y2: int|
                            0 <= x < g.width && 0 <= y2 < g.height implies nonempty(
                            #[trigger] g.dom(x, y2),
                        ) by {
                            if !(x == q.x as int && y2 == q.y as int) {
                                assert(g.dom(x, y2) == gpre.dom(x, y2));
                                assert(nonempty(gpre.dom(x, y2)));
                            }
                        }
                    }
                    if changed {
                        proof {
                            if stable(*m, *old(g)) {
                                assert(false);
                            }
                            // The restricted cell lost a candidate, so the
                            // grid's total candidate count went strictly
                            // down.
                            let t = choose|t: int|
                                0 <= t < gpre.n_tiles && #[trigger] gpre.dom(
                                    q.x as int,
                                    q.y as int,
                                )[t] && !allowed@[t];
                            assert(!g.dom(q.x as int, q.y as int)[t]);
                            lemma_popcnt_lt(
                                g.dom(q.x as int, q.y as int),
                                gpre.dom(q.x as int, q.y as int),
                            );
                            assert(gpre.wf());
                            assert forall|y2: int, x: int|
                                0 <= y2 < g.cells@.len() && 0 <= x < g.cells@[y2]@.len()
                                implies popcnt(#[trigger] g.cells@[y2]@[x]@) <= popcnt(
                                #[trigger] gpre.cells@[y2]@[x]@,
                            ) by {
                                if x == q.x as int && y2 == q.y as int {
                                    lemma_popcnt_le(g.dom(x, y2), gpre.dom(x, y2));
                                } else {
                                    assert(g.dom(x, y2) == gpre.dom(x, y2));
                                }
                            }
                            lemma_grid_tot_lt(g.cells@, gpre.cells@, q.x as int, q.y as int);
                            assert(grid_tot(g.cells@) < grid_tot(gpre.cells@));
                        }
                        let prow2 = &mut pending[q.y];
                        if !prow2[q.x] {
                            prow2[q.x] = true;
                            queue.push(q);
                        }
                    } else {
                        proof {
                            assert(gpre.wf());
                            assert forall|y2: int, x: int|
                                0 <= y2 < g.cells@.len() && 0 <= x < g.cells@[y2]@.len()
                                implies popcnt(#[trigger] g.cells@[y2]@[x]@) <= popcnt(
                                #[trigger] gpre.cells@[y2]@[x]@,
                            ) by {
                                if x == q.x as int && y2 == q.y as int {
                                    lemma_popcnt_le(g.dom(x, y2), gpre.dom(x, y2));
                                } else {
                                    assert(g.dom(x, y2) == gpre.dom(x, y2));
                                }
                            }
                            lemma_grid_tot_le(g.cells@, gpre.cells@);
                            if stable(*m, *old(g)) {
                                assert forall|x: int, y2: int|
                                    0 <= x < g.width && 0 <= y2 < g.height
                                    implies #[trigger] g.dom(x, y2) == old(g).dom(x, y2) by {
                                    if !(x == q.x as int && y2 == q.y as int) {
                                        assert(g.dom(x, y2) == gpre.dom(x, y2));
                                    }
                                }
                            }
                        }
                    }
                    proof {
                        // Either nothing was queued, or the new entry is the
                        // restricted cell itself.
                        assert(queue@ == qpre || queue@ == qpre.push(q));
                        // Flags still point at pending entries.
                        assert forall|yy: int, xx: int|
                            0 <= yy < old(g).height && 0 <= xx < old(g).width
                                && #[trigger] pending@[yy]@[xx] implies pending_in(
                            queue@,
                            cursor as int,
                            Pos { x: xx as usize, y: yy as usize },
                        ) by {
                            let pos = Pos { x: xx as usize, y: yy as usize };
                            if queue@ == qpre.push(q) && pos == q {
                                assert(queue@[qpre.len() as int] == q);
                            } else {
                                assert(pendpre[yy]@[xx]);
                                let w = choose|w: int|
                                    cursor <= w < qpre.len() && qpre[w] == pos;
                                assert(queue@[w] == pos);
                            }
                        }
                        if settled_except_seeds(*m, *old(g), seeds@) {
                            // The restricted cell is pending whenever it
                            // actually changed.
                            if changed {
                                assert(pending_in(queue@, cursor as int, q)) by {
                                    if queue@ == qpre.push(q) {
                                        assert(queue@[qpre.len() as int] == q);
                                    } else {
                                        assert(pendpre[q.y as int]@[q.x as int]);
                                        let w = choose|w: int|
                                            cursor <= w < qpre.len() && qpre[w] == q;
                                        assert(queue@[w] == q);
                                    }
                                }
                            }
                            // Arcs from non-pending cells other than `p`
                            // stay consistent: their sources are unchanged
                            // and their targets only shrank.
                            assert forall|r: Pos, dd: Direction|
                                g.in_bounds(r) && !pending_in(queue@, cursor as int, r) && r != p
                                implies #[trigger] arc_ok(*m, *g, r, dd) by {
                                assert(!pending_in(qpre, cursor as int, r)) by {
                                    if pending_in(qpre, cursor as int, r) {
                                        let w = choose|w: int|
                                            cursor <= w < qpre.len() && qpre[w] == r;
                                        assert(queue@[w] == r);
                                    }
                                }
                                assert(arc_ok(*m, gpre, r, dd));
                                if changed {
                                    assert(r != q);
                                }
                                assert(g.dom(r.x as int, r.y as int) == gpre.dom(
                                    r.x as int,
                                    r.y as int,
                                ));
                                match gpre.nbr(r, dd) {
                                    Option::Some(s) => {
                                        assert(g.nbr(r, dd) == Option::Some(s));
                                        assert(gpre.in_bounds(s));
                                        lemma_subset_trans(
                                            g.dom(s.x as int, s.y as int),
                                            gpre.dom(s.x as int, s.y as int),
                                            allowed_union(
                                                *m,
                                                gpre.dom(r.x as int, r.y as int),
                                                dd,
                                            ),
                                        );
                                    },
                                    Option::None => {
                                        assert(g.nbr(r, dd) is None);
                                    },
                                }
                            }
                            // The arcs from `p` handled so far, now
                            // including this one.
                            assert forall|j: int| 0 <= j < k + 1 implies subset_of(
                                g.dom(
                                    ((#[trigger] nbrs@[j]).1).x as int,
                                    (nbrs@[j].1).y as int,
                                ),
                                allowed_union(*m, g.dom(p.x as int, p.y as int), nbrs@[j].0),
                            ) by {
                                assert(g.dom(p.x as int, p.y as int) == gpre.dom(
                                    p.x as int,
                                    p.y as int,
                                ));
                                if j == k as int {
                                    assert(allowed@ == allowed_union(
                                        *m,
                                        gpre.dom(p.x as int, p.y as int),
                                        d,
                                    ));
                                    assert(subset_of(g.dom(q.x as int, q.y as int), allowed@));
                                } else {
                                    let qj = nbrs@[j].1;
                                    lemma_subset_trans(
                                        g.dom(qj.x as int, qj.y as int),
                                        gpre.dom(qj.x as int, qj.y as int),
                                        allowed_union(
                                            *m,
                                            gpre.dom(p.x as int, p.y as int),
                                            nbrs@[j].0,
                                        ),
                                    );
                                }
                            }
                        }
                    }
                },
            }
            k = k + 1;
        }
        proof {
            if queue@.len() > qlen0 {
                assert(grid_tot(g.cells@) < tot0);
            }
            if settled_except_seeds(*m, *old(g), seeds@) {
                // All arcs from `p` were handled, so unless `p` is queued
                // again the whole prefix of the worklist is settled.
                assert forall|r: Pos, dd: Direction|
                    g.in_bounds(r) && !pending_in(queue@, cursor as int, r)
                    implies #[trigger] arc_ok(*m, *g, r, dd) by {
                    if r == p {
                        if old(g).nbr(p, dd) is Some {
                            let j = choose|j: int|
                                0 <= j < nbrs@.len() && (#[trigger] nbrs@[j]) == (
                                dd,
                                old(g).nbr(p, dd)->Some_0,
                                );
                            assert(subset_of(
                                g.dom((nbrs@[j].1).x as int, (nbrs@[j].1).y as int),
                                allowed_union(*m, g.dom(p.x as int, p.y as int), nbrs@[j].0),
                            ));
                            assert(g.nbr(p, dd) == old(g).nbr(p, dd));
                        } else {
                            assert(g.nbr(p, dd) == old(g).nbr(p, dd));
                        }
                    }
                }
            }
        }
    }
    proof {
        if settled_except_seeds(*m, *old(g), seeds@) {
            assert forall|pp: Pos, dd: Direction| g.in_bounds(pp) implies #[trigger] arc_ok(
                *m,
                *g,
                pp,
                dd,
            ) by {
                assert(!pending_in(queue@, cursor as int, pp));
            }
        }
    }
    Ok(())
}

} // verus!
