//! The collapse loop: pick the uncollapsed cell with the fewest candidates
//! (ties broken in row-major scan order), commit one candidate drawn from a
//! seeded pseudo-random generator (weighted by the configured tile weights,
//! uniform by default), propagate, and recover from contradictions by the
//! configured policy: restart from full domains, or pop grid snapshots and
//! forbid the choice that failed. The fresh grid is made arc-consistent
//! once before the first commit and every later step re-establishes
//! arc-consistency, so a finished grid provably satisfies the adjacency
//! rules everywhere.

use vstd::prelude::*;

use crate::domain::{
    dom_unc, grid_tot, grid_unc, lemma_grid_tot_le, lemma_grid_tot_lt, lemma_grid_unc_bound,
    lemma_grid_unc_le, lemma_grid_unc_lt, lemma_nonempty_popcnt, lemma_popcnt_le,
    lemma_popcnt_singleton, lemma_subset_trans, nonempty, popcnt, subset_of,
};
use crate::grid::{Contradiction, Grid, Pos};
use crate::model::{all_compatible, CompatibilityModel};
use crate::propagate::{
    allowed_union, arc_ok, lemma_all_compatible_stable, lemma_stable_eq, propagate,
    settled_except_seeds, stable,
};
use crate::tiles::{Direction, TileCatalog};

verus! {

/// Contradiction recovery: discard the grid and restart from full domains,
/// or pop per-commit snapshots and forbid the failing choice.
#[derive(Clone, Copy, PartialEq, Eq, Structural, Debug)]
pub enum RetryPolicy {
    Restart,
    Stepwise,
}

/// Solve-session configuration. `max_retries` bounds restarts,
/// `max_backtrack_depth` bounds the snapshot stack (oldest snapshots are
/// dropped beyond it), and `tile_weights` biases the random tile choice
/// (a missing entry counts as weight one).
pub struct SolverConfig {
    pub seed: u64,
    pub retry_policy: RetryPolicy,
    pub max_retries: usize,
    pub max_backtrack_depth: usize,
    pub tile_weights: Option<Vec<u64>>,
}

/// Terminal failure of a solve attempt: how many contradictions were
/// absorbed before giving up, and where the last one arose.
#[derive(Clone, Copy, PartialEq, Eq, Debug)]
pub struct Unsolvable {
    pub retries: usize,
    pub last_contradiction: Option<Pos>,
}

/// One increment of the solve loop, for incremental hosts.
pub enum StepResult {
    Continue,
    Done(Grid),
    Failed(Unsolvable),
}

/// The grid state right before one commit, with the committed choice, so a
/// backtrack can restore the state and forbid that choice.
pub struct Snapshot {
    pub grid: Grid,
    pub at: Pos,
    pub tile: usize,
}

/// The linear-congruential step of the solver's pseudo-random source
/// (Knuth's MMIX multiplier), reduced modulo two to the sixty-fourth.
pub open spec fn lcg_next(s: u64) -> u64 {
    (((s * 6364136223846793005) + 1442695040888963407) % 0x10000000000000000) as u64
}

/// Advances the pseudo-random state and returns the new value.
fn next_u64(state: &mut u64) -> (r: u64)
    ensures
        *final(state) == lcg_next(*old(state)),
        r == lcg_next(*old(state)),
{
    let s = *state;
    proof {
        assert((s as int) * 6364136223846793005 < 0x100000000000000000000000000000000
            - 1442695040888963407) by (nonlinear_arith)
            requires
                s as int <= 0xffffffffffffffff,
        ;
    }
    let wide: u128 = (s as u128) * 6364136223846793005u128 + 1442695040888963407u128;
    let r = (wide % 0x10000000000000000u128) as u64;
    *state = r;
    r
}

/// Multiplies, capping at the largest value instead of overflowing.
fn sat_mul(a: u64, b: u64) -> (r: u64)
    ensures
        r as int == if a as int * b as int <= u64::MAX as int {
            a as int * b as int
        } else {
            u64::MAX as int
        },
{
    proof {
        assert((a as int) * (b as int) < 0x100000000000000000000000000000000) by (nonlinear_arith)
            requires
                a as int <= 0xffffffffffffffff,
                b as int <= 0xffffffffffffffff,
        ;
    }
    let wide: u128 = (a as u128) * (b as u128);
    if wide <= u64::MAX as u128 {
        wide as u64
    } else {
        u64::MAX
    }
}

/// Adds, capping at the largest value instead of overflowing.
fn sat_add(a: u64, b: u64) -> (r: u64)
    ensures
        r as int == if a as int + b as int <= u64::MAX as int {
            a as int + b as int
        } else {
            u64::MAX as int
        },
{
    if a <= u64::MAX - b {
        a + b
    } else {
        u64::MAX
    }
}

/// The configured weight of tile `t`: the supplied entry, or one where the
/// weight table is absent or too short.
pub open spec fn tile_weight(weights: Option<Vec<u64>>, t: int) -> u64 {
    match weights {
        Option::Some(v) => if 0 <= t < v@.len() {
            v@[t]
        } else {
            1
        },
        Option::None => 1,
    }
}

fn weight_of(weights: &Option<Vec<u64>>, t: usize) -> (w: u64)
    ensures
        w == tile_weight(*weights, t as int),
{
    match weights {
        Option::Some(v) => if t < v.len() {
            v[t]
        } else {
            1
        },
        Option::None => 1,
    }
}

/// The candidate tile ids of a domain, in increasing order.
pub open spec fn candidates_of(dom: Seq<bool>) -> Seq<usize>
    decreases dom.len(),
{
    if dom.len() == 0 {
        Seq::empty()
    } else {
        candidates_of(dom.drop_last()) + if dom.last() {
            seq![(dom.len() - 1) as usize]
        } else {
            Seq::empty()
        }
    }
}

/// The total configured weight of a candidate list.
pub open spec fn cand_weight_total(weights: Option<Vec<u64>>, cands: Seq<usize>) -> int
    decreases cands.len(),
{
    if cands.len() == 0 {
        0
    } else {
        cand_weight_total(weights, cands.drop_last()) + tile_weight(weights, cands.last() as int)
    }
}

/// The candidate whose cumulative weight interval contains `draw`, walking
/// from index `i` (the first candidate as a fallback, never reached while
/// `draw` lies under the remaining total).
pub open spec fn pick_index(
    weights: Option<Vec<u64>>,
    cands: Seq<usize>,
    draw: int,
    i: int,
) -> usize
    decreases cands.len() - i,
{
    if i < 0 || i >= cands.len() {
        if cands.len() > 0 {
            cands[0]
        } else {
            0
        }
    } else if draw < tile_weight(weights, cands[i] as int) {
        cands[i]
    } else {
        pick_index(weights, cands, draw - tile_weight(weights, cands[i] as int), i + 1)
    }
}

/// The tile a draw of `r` selects from a domain: the `r`-th slot of the
/// candidates' cumulative weight line, or a uniform pick when the weights
/// sum to zero.
pub open spec fn spec_pick(weights: Option<Vec<u64>>, dom: Seq<bool>, r: u64) -> usize {
    let cands = candidates_of(dom);
    let total = cand_weight_total(weights, cands);
    if total == 0 {
        cands[(r as int) % (cands.len() as int)]
    } else {
        pick_index(weights, cands, (r as int) % total, 0)
    }
}

/// Draws one candidate from a nonempty domain, weighted by `weights`
/// (uniform when every candidate weight is zero), advancing the
/// pseudo-random state. The choice is a function of the draw, the weights
/// and the domain alone, so solves are reproducible for a seed.
fn pick_from(rng: &mut u64, weights: &Option<Vec<u64>>, dom: &Vec<bool>) -> (t: usize)
    requires
        nonempty(dom@),
    ensures
        t < dom@.len(),
        dom@[t as int],
        *final(rng) == lcg_next(*old(rng)),
        t == spec_pick(*weights, dom@, lcg_next(*old(rng))),
{
    let mut cands: Vec<usize> = Vec::new();
    let mut i: usize = 0;
    while i < dom.len()
        invariant
            i <= dom@.len(),
            forall|j: int|
                0 <= j < cands@.len() ==> (#[trigger] cands@[j]) < dom@.len()
                    && dom@[cands@[j] as int],
            (exists|u: int| 0 <= u < i && #[trigger] dom@[u]) <==> cands@.len() > 0,
            cands@ == candidates_of(dom@.take(i as int)),
        decreases dom@.len() - i,
    {
        proof {
            assert(dom@.take(i + 1).drop_last() =~= dom@.take(i as int));
            assert(dom@.take(i + 1).last() == dom@[i as int]);
            if dom@[i as int] {
                assert(candidates_of(dom@.take(i + 1)) =~= candidates_of(
                    dom@.take(i as int),
                ).push(i));
            } else {
                assert(candidates_of(dom@.take(i + 1)) =~= candidates_of(dom@.take(i as int)));
            }
        }
        if dom[i] {
            cands.push(i);
        }
        i = i + 1;
    }
    proof {
        assert(dom@.take(dom@.len() as int) =~= dom@);
    }
    let r = next_u64(rng);
    let ghost big: int = 0xffffffffffffffff;
    let mut total: u128 = 0;
    let mut j: usize = 0;
    while j < cands.len()
        invariant
            j <= cands@.len(),
            cands@.len() > 0,
            forall|jj: int|
                0 <= jj < cands@.len() ==> (#[trigger] cands@[jj]) < dom@.len()
                    && dom@[cands@[jj] as int],
            big == 0xffffffffffffffff,
            total as int == cand_weight_total(*weights, cands@.take(j as int)),
            total as int <= j as int * big,
        decreases cands@.len() - j,
    {
        let w = weight_of(weights, cands[j]) as u128;
        proof {
            assert(cands@.take(j + 1).drop_last() =~= cands@.take(j as int));
            assert(cands@.take(j + 1).last() == cands@[j as int]);
            assert(total as int + w as int <= j as int * big + big);
            assert(j as int * big + big == (j as int + 1) * big) by (nonlinear_arith);
            assert((j as int + 1) * big <= big * big) by (nonlinear_arith)
                requires
                    0 <= j as int + 1 <= big,
            ;
        }
        total = total + w;
        j = j + 1;
    }
    proof {
        assert(cands@.take(cands@.len() as int) =~= cands@);
    }
    if total == 0 {
        let idx = ((r as u128) % (cands.len() as u128)) as usize;
        return cands[idx];
    }
    let draw = (r as u128) % total;
    let mut rem: u128 = draw;
    let mut k: usize = 0;
    while k < cands.len()
        invariant
            k <= cands@.len(),
            cands@.len() > 0,
            forall|jj: int|
                0 <= jj < cands@.len() ==> (#[trigger] cands@[jj]) < dom@.len()
                    && dom@[cands@[jj] as int],
            cands@ == candidates_of(dom@),
            *rng == lcg_next(*old(rng)),
            r == lcg_next(*old(rng)),
            total as int == cand_weight_total(*weights, cands@),
            total > 0,
            draw as int == (r as int) % (total as int),
            rem as int <= cand_weight_total(*weights, cands@) - cand_weight_total(
                *weights,
                cands@.take(k as int),
            ) - 1,
            pick_index(*weights, cands@, draw as int, 0) == pick_index(
                *weights,
                cands@,
                rem as int,
                k as int,
            ),
        decreases cands@.len() - k,
    {
        let w = weight_of(weights, cands[k]) as u128;
        proof {
            assert(cands@.take(k + 1).drop_last() =~= cands@.take(k as int));
            assert(cands@.take(k + 1).last() == cands@[k as int]);
        }
        if rem < w {
            return cands[k];
        }
        rem = rem - w;
        k = k + 1;
    }
    proof {
        assert(cands@.take(cands@.len() as int) =~= cands@);
        assert(false);
    }
    cands[0]
}

/// Row-major scan order: (`x`, `y`) is visited before (`px`, `py`).
pub open spec fn scanned_before(x: int, y: int, px: int, py: int) -> bool {
    y < py || (y == py && x < px)
}

/// `p` is the cell minimum-entropy selection picks: uncollapsed, with the
/// fewest candidates among uncollapsed cells, and first in row-major order
/// among those tied for fewest.
pub open spec fn min_entropy_at(g: Grid, p: Pos) -> bool {
    &&& g.in_bounds(p)
    &&& popcnt(g.dom(p.x as int, p.y as int)) >= 2
    &&& forall|x: int, y: int|
        0 <= x < g.width && 0 <= y < g.height && popcnt(#[trigger] g.dom(x, y)) >= 2 ==> popcnt(
            g.dom(p.x as int, p.y as int),
        ) <= popcnt(g.dom(x, y))
    &&& forall|x: int, y: int|
        0 <= x < g.width && 0 <= y < g.height && scanned_before(x, y, p.x as int, p.y as int)
            ==> popcnt(#[trigger] g.dom(x, y)) < 2 || popcnt(g.dom(x, y)) > popcnt(
            g.dom(p.x as int, p.y as int),
        )
}

/// One commit took the grid from `g0` to `g1`: the minimum-entropy cell `p`
/// was collapsed to `t`, a member of its old domain, and still holds
/// exactly `t`.
pub open spec fn committed_cell(g0: Grid, g1: Grid, p: Pos, t: int) -> bool {
    &&& min_entropy_at(g0, p)
    &&& 0 <= t < g0.n_tiles
    &&& g0.dom(p.x as int, p.y as int)[t]
    &&& popcnt(g1.dom(p.x as int, p.y as int)) == 1
    &&& g1.dom(p.x as int, p.y as int)[t]
}

pub open spec fn snapshot_wf(s: Snapshot, m: CompatibilityModel, g: Grid) -> bool {
    &&& s.grid.wf()
    &&& s.grid.same_shape(g)
    &&& s.grid.all_nonempty()
    &&& stable(m, s.grid)
    &&& s.grid.in_bounds(s.at)
    &&& s.tile < g.n_tiles
}

/// Orchestrates one full solve attempt over an immutable catalog and
/// adjacency model.
pub struct Solver {
    pub catalog: TileCatalog,
    pub model: CompatibilityModel,
    pub config: SolverConfig,
    pub grid: Grid,
    pub rng: u64,
    pub retries: usize,
    pub last_contradiction: Option<Pos>,
    pub snapshots: Vec<Snapshot>,
    pub primed: bool,
}

impl Solver {
    pub open spec fn wf(self) -> bool {
        &&& self.catalog.wf()
        &&& self.model.is_model_of(self.catalog)
        &&& self.model.n_tiles >= 1
        &&& self.grid.wf()
        &&& self.grid.n_tiles == self.model.n_tiles
        &&& self.grid.all_nonempty()
        &&& (self.primed ==> stable(self.model, self.grid))
        &&& forall|i: int|
            0 <= i < self.snapshots@.len() ==> snapshot_wf(
                #[trigger] self.snapshots@[i],
                self.model,
                self.grid,
            )
    }

    /// A fresh solver over a validated catalog and its adjacency model, with
    /// a grid of full domains. At least one tile is needed, else every
    /// domain would start empty.
    pub fn new(
        catalog: TileCatalog,
        model: CompatibilityModel,
        width: usize,
        height: usize,
        config: SolverConfig,
    ) -> (s: Solver)
        requires
            catalog.wf(),
            model.is_model_of(catalog),
            catalog.tiles@.len() >= 1,
        ensures
            s.wf(),
            s.grid.width == width,
            s.grid.height == height,
            s.grid.n_tiles == model.n_tiles,
            s.retries == 0,
            s.last_contradiction is None,
            s.rng == config.seed,
            !s.primed,
            forall|x: int, y: int, t: int|
                0 <= x < width && 0 <= y < height && 0 <= t < model.n_tiles ==> #[trigger] s.grid.dom(
                    x,
                    y,
                )[t],
    {
        let n = model.tile_count();
        let grid = Grid::new(width, height, n);
        let rng = config.seed;
        Solver {
            catalog,
            model,
            config,
            grid,
            rng,
            retries: 0,
            last_contradiction: Option::None,
            snapshots: Vec::new(),
            primed: false,
        }
    }

    /// Minimum-entropy selection: among the cells with more than one
    /// candidate, the one with the fewest, ties broken by row-major scan
    /// order. `None` means every cell is down to at most one candidate.
    pub fn select_cell(&self) -> (r: Option<Pos>)
        requires
            self.grid.wf(),
        ensures
            r matches Some(p) ==> min_entropy_at(self.grid, p),
            r is None ==> forall|x: int, y: int|
                0 <= x < self.grid.width && 0 <= y < self.grid.height ==> popcnt(
                    #[trigger] self.grid.dom(x, y),
                ) <= 1,
    {
        let mut best: Option<Pos> = Option::None;
        let mut best_size: usize = 0;
        let mut y: usize = 0;
        while y < self.grid.height
            invariant
                y <= self.grid.height,
                self.grid.wf(),
                match best {
                    Option::Some(p) => self.grid.in_bounds(p) && (p.y as int) < y && popcnt(
                        self.grid.dom(p.x as int, p.y as int),
                    ) == best_size && best_size >= 2 && (forall|xx: int, yy: int|
                        0 <= xx < self.grid.width && 0 <= yy < y && popcnt(
                            #[trigger] self.grid.dom(xx, yy),
                        ) >= 2 ==> best_size <= popcnt(self.grid.dom(xx, yy))) && (forall|
                        xx: int,
                        yy: int,
                    |
                        0 <= xx < self.grid.width && 0 <= yy < y && scanned_before(
                            xx,
                            yy,
                            p.x as int,
                            p.y as int,
                        ) ==> popcnt(#[trigger] self.grid.dom(xx, yy)) < 2 || popcnt(
                            self.grid.dom(xx, yy),
                        ) > best_size),
                    Option::None => forall|xx: int, yy: int|
                        0 <= xx < self.grid.width && 0 <= yy < y ==> popcnt(
                            #[trigger] self.grid.dom(xx, yy),
                        ) <= 1,
                },
            decreases self.grid.height - y,
        {
            let mut x: usize = 0;
            while x < self.grid.width
                invariant
                    x <= self.grid.width,
                    y < self.grid.height,
                    self.grid.wf(),
                    match best {
                        Option::Some(p) => self.grid.in_bounds(p) && ((p.y as int) < y || (
                        p.y as int == y && (p.x as int) < x)) && popcnt(
                            self.grid.dom(p.x as int, p.y as int),
                        ) == best_size && best_size >= 2 && (forall|xx: int, yy: int|
                            0 <= xx < self.grid.width && 0 <= yy < self.grid.height
                                && scanned_before(xx, yy, x as int, y as int) && popcnt(
                                #[trigger] self.grid.dom(xx, yy),
                            ) >= 2 ==> best_size <= popcnt(self.grid.dom(xx, yy))) && (forall|
                            xx: int,
                            yy: int,
                        |
                            0 <= xx < self.grid.width && 0 <= yy < self.grid.height
                                && scanned_before(xx, yy, x as int, y as int) && scanned_before(
                                xx,
                                yy,
                                p.x as int,
                                p.y as int,
                            ) ==> popcnt(#[trigger] self.grid.dom(xx, yy)) < 2 || popcnt(
                                self.grid.dom(xx, yy),
                            ) > best_size),
                        Option::None => forall|xx: int, yy: int|
                            0 <= xx < self.grid.width && 0 <= yy < self.grid.height
                                && scanned_before(xx, yy, x as int, y as int) ==> popcnt(
                                #[trigger] self.grid.dom(xx, yy),
                            ) <= 1,
                    },
                decreases self.grid.width - x,
            {
                let p = Pos { x, y };
                let c = self.grid.domain_size_at(p);
                if c >= 2 {
                    match best {
                        Option::None => {
                            best = Option::Some(p);
                            best_size = c;
                        },
                        Option::Some(_) => {
                            if c < best_size {
                                best = Option::Some(p);
                                best_size = c;
                            }
                        },
                    }
                }
                x = x + 1;
            }
            y = y + 1;
        }
        best
    }

    /// One increment of the solve loop, run to its own fixpoint before
    /// returning. The first step makes the fresh grid arc-consistent once;
    /// each later step selects, commits and propagates, so no cell is ever
    /// left violating an already-collapsed neighbour. `Done` carries a copy
    /// of the fully collapsed, arc-consistent grid; after `Failed` the
    /// solver's grid is reset to full domains.
    pub fn step(&mut self) -> (r: StepResult)
        requires
            old(self).wf(),
        ensures
            final(self).wf(),
            final(self).grid.same_shape(old(self).grid),
            old(self).primed && old(self).grid.fully_collapsed() ==> r is Done,
            r matches StepResult::Done(g) ==> g.wf() && g.fully_collapsed() && g.same_shape(
                old(self).grid,
            ) && stable(final(self).model, g),
            r matches StepResult::Failed(u) ==> u.retries == final(self).retries
                && u.last_contradiction == final(self).last_contradiction,
            final(self).retries >= old(self).retries,
            final(self).model == old(self).model,
            r is Continue ==> final(self).primed && stable(final(self).model, final(self).grid),
            old(self).primed && r is Continue ==> grid_tot(final(self).grid.cells@) < grid_tot(
                old(self).grid.cells@,
            ) || final(self).retries > old(self).retries || old(self).retries == usize::MAX,
            all_compatible(old(self).model) ==> !(r is Failed) && final(self).retries
                == old(self).retries,
            all_compatible(old(self).model) && !old(self).primed ==> r is Continue && grid_unc(
                final(self).grid.cells@,
            ) <= grid_unc(old(self).grid.cells@),
            all_compatible(old(self).model) && old(self).primed && r is Continue ==> grid_unc(
                final(self).grid.cells@,
            ) < grid_unc(old(self).grid.cells@),
            old(self).primed && r is Continue && final(self).retries == old(self).retries
                && old(self).retries < usize::MAX ==> exists|p: Pos, t: int|
                #[trigger] committed_cell(old(self).grid, final(self).grid, p, t),
    {
        if !self.primed {
            return self.prime();
        }
        let sel = self.select_cell();
        match sel {
            Option::None => {
                proof {
                    assert forall|x: int, y: int|
                        0 <= x < self.grid.width && 0 <= y < self.grid.height implies popcnt(
                        #[trigger] self.grid.dom(x, y),
                    ) == 1 by {
                        lemma_nonempty_popcnt(self.grid.dom(x, y));
                    }
                }
                let out = self.grid.snapshot();
                proof {
                    lemma_stable_eq(self.model, self.grid, out);
                }
                StepResult::Done(out)
            },
            Option::Some(p) => {
                proof {
                    lemma_nonempty_popcnt(self.grid.dom(p.x as int, p.y as int));
                }
                let t = pick_from(&mut self.rng, &self.config.tile_weights, self.grid.domain_at(p));
                let stepwise = match self.config.retry_policy {
                    RetryPolicy::Stepwise => true,
                    RetryPolicy::Restart => false,
                };
                if stepwise && self.config.max_backtrack_depth > 0 {
                    if self.snapshots.len() == self.config.max_backtrack_depth {
                        self.snapshots.remove(0);
                    }
                    let snap_grid = self.grid.snapshot();
                    proof {
                        lemma_stable_eq(self.model, self.grid, snap_grid);
                    }
                    let snap = Snapshot { grid: snap_grid, at: p, tile: t };
                    self.snapshots.push(snap);
                }
                let collapsed = self.grid.collapse(p, t);
                match collapsed {
                    Result::Err(_) => {
                        proof {
                            assert(false);
                        }
                        StepResult::Continue
                    },
                    Result::Ok(()) => {
                        proof {
                            assert forall|x: int, y: int|
                                0 <= x < self.grid.width && 0 <= y < self.grid.height
                                implies nonempty(#[trigger] self.grid.dom(x, y)) by {
                                if x == p.x as int && y == p.y as int {
                                    lemma_nonempty_popcnt(self.grid.dom(x, y));
                                } else {
                                    assert(self.grid.dom(x, y) == old(self).grid.dom(x, y));
                                }
                            }
                        }
                        let mut seeds: Vec<Pos> = Vec::new();
                        seeds.push(p);
                        let ghost gcol = self.grid;
                        proof {
                            // The grid was arc-consistent before this
                            // commit, and the commit only shrank the domain
                            // at `p`: every arc not starting at the seed is
                            // still consistent.
                            assert(seeds@[0] == p);
                            assert forall|r: Pos, dd: Direction|
                                gcol.in_bounds(r) && !seeds@.contains(r)
                                implies #[trigger] arc_ok(self.model, gcol, r, dd) by {
                                assert(r != p) by {
                                    if r == p {
                                        assert(seeds@[0] == r);
                                    }
                                }
                                assert(arc_ok(self.model, old(self).grid, r, dd));
                                assert(gcol.dom(r.x as int, r.y as int) == old(self).grid.dom(
                                    r.x as int,
                                    r.y as int,
                                ));
                                match old(self).grid.nbr(r, dd) {
                                    Option::Some(s) => {
                                        assert(gcol.nbr(r, dd) == Option::Some(s));
                                        assert(old(self).grid.in_bounds(s));
                                        lemma_subset_trans(
                                            gcol.dom(s.x as int, s.y as int),
                                            old(self).grid.dom(s.x as int, s.y as int),
                                            allowed_union(
                                                self.model,
                                                old(self).grid.dom(r.x as int, r.y as int),
                                                dd,
                                            ),
                                        );
                                    },
                                    Option::None => {
                                        assert(gcol.nbr(r, dd) is None);
                                    },
                                }
                            }
                            // The commit strictly shrank one cell: both the
                            // total candidate count and the uncollapsed-cell
                            // count went down.
                            assert forall|y: int, x: int|
                                0 <= y < gcol.cells@.len() && 0 <= x < gcol.cells@[y]@.len()
                                implies popcnt(#[trigger] gcol.cells@[y]@[x]@) <= popcnt(
                                #[trigger] old(self).grid.cells@[y]@[x]@,
                            ) && dom_unc(gcol.cells@[y]@[x]@) <= dom_unc(
                                old(self).grid.cells@[y]@[x]@,
                            ) by {
                                if !(x == p.x as int && y == p.y as int) {
                                    assert(gcol.dom(x, y) == old(self).grid.dom(x, y));
                                }
                            }
                            lemma_grid_tot_lt(
                                gcol.cells@,
                                old(self).grid.cells@,
                                p.x as int,
                                p.y as int,
                            );
                            lemma_grid_unc_lt(
                                gcol.cells@,
                                old(self).grid.cells@,
                                p.x as int,
                                p.y as int,
                            );
                        }
                        let prop = propagate(&self.model, &mut self.grid, &seeds);
                        match prop {
                            Result::Ok(()) => {
                                proof {
                                    assert(stable(self.model, self.grid));
                                    // The committed cell still holds exactly
                                    // the drawn tile: propagation could only
                                    // shrink it, and it stayed nonempty.
                                    let fd = self.grid.dom(p.x as int, p.y as int);
                                    assert(subset_of(fd, gcol.dom(p.x as int, p.y as int)));
                                    assert(nonempty(fd));
                                    let wt = choose|u: int| 0 <= u < fd.len() && #[trigger] fd[u];
                                    assert(gcol.dom(p.x as int, p.y as int)[wt]);
                                    assert(wt == t as int);
                                    assert forall|u: int| 0 <= u < fd.len() implies (#[trigger] fd[u]
                                        <==> u == t as int) by {
                                        if fd[u] {
                                            assert(gcol.dom(p.x as int, p.y as int)[u]);
                                        }
                                    }
                                    lemma_popcnt_singleton(fd, t as int);
                                    assert(committed_cell(old(self).grid, self.grid, p, t as int));
                                    // Propagation only shrank further.
                                    assert forall|y: int, x: int|
                                        0 <= y < self.grid.cells@.len() && 0 <= x
                                            < self.grid.cells@[y]@.len() implies popcnt(
                                        #[trigger] self.grid.cells@[y]@[x]@,
                                    ) <= popcnt(#[trigger] gcol.cells@[y]@[x]@) by {
                                        lemma_popcnt_le(self.grid.dom(x, y), gcol.dom(x, y));
                                    }
                                    lemma_grid_tot_le(self.grid.cells@, gcol.cells@);
                                    if all_compatible(old(self).model) {
                                        lemma_all_compatible_stable(self.model, gcol);
                                        assert(self.grid.dom_eq(gcol));
                                        assert forall|y: int, x: int|
                                            0 <= y < self.grid.cells@.len() && 0 <= x
                                                < self.grid.cells@[y]@.len() implies dom_unc(
                                            #[trigger] self.grid.cells@[y]@[x]@,
                                        ) <= dom_unc(#[trigger] gcol.cells@[y]@[x]@) by {
                                            assert(self.grid.dom(x, y) == gcol.dom(x, y));
                                        }
                                        lemma_grid_unc_le(self.grid.cells@, gcol.cells@);
                                    }
                                }
                                StepResult::Continue
                            },
                            Result::Err(c) => {
                                proof {
                                    if all_compatible(old(self).model) {
                                        lemma_all_compatible_stable(self.model, gcol);
                                        assert(false);
                                    }
                                }
                                self.last_contradiction = Option::Some(c.at);
                                if self.retries < usize::MAX {
                                    self.retries = self.retries + 1;
                                }
                                self.recover()
                            },
                        }
                    },
                }
            },
        }
    }

    /// Propagates with every cell as a seed, so that on success the whole
    /// grid is arc-consistent. Touches nothing but the grid.
    fn make_consistent(&mut self) -> (r: Result<(), Contradiction>)
        requires
            old(self).model.wf(),
            old(self).grid.wf(),
            old(self).grid.n_tiles == old(self).model.n_tiles,
            old(self).grid.all_nonempty(),
        ensures
            final(self).catalog == old(self).catalog,
            final(self).model == old(self).model,
            final(self).config == old(self).config,
            final(self).rng == old(self).rng,
            final(self).retries == old(self).retries,
            final(self).last_contradiction == old(self).last_contradiction,
            final(self).snapshots == old(self).snapshots,
            final(self).primed == old(self).primed,
            final(self).grid.wf(),
            final(self).grid.same_shape(old(self).grid),
            final(self).grid.domains_subset_of(old(self).grid),
            r is Ok ==> stable(old(self).model, final(self).grid)
                && final(self).grid.all_nonempty(),
            stable(old(self).model, old(self).grid) ==> r is Ok && final(self).grid.dom_eq(
                old(self).grid,
            ),
    {
        let w = self.grid.width;
        let h = self.grid.height;
        let mut seeds: Vec<Pos> = Vec::new();
        let mut yy: usize = 0;
        while yy < h
            invariant
                yy <= h,
                w == self.grid.width,
                h == self.grid.height,
                forall|i: int|
                    0 <= i < seeds@.len() ==> (#[trigger] seeds@[i]).x < w && seeds@[i].y < h,
                forall|pp: Pos|
                    pp.x < w && pp.y < h && (pp.y as int) < yy ==> #[trigger] seeds@.contains(pp),
            decreases h - yy,
        {
            let mut xx: usize = 0;
            while xx < w
                invariant
                    xx <= w,
                    yy < h,
                    forall|i: int|
                        0 <= i < seeds@.len() ==> (#[trigger] seeds@[i]).x < w && seeds@[i].y < h,
                    forall|pp: Pos|
                        pp.x < w && pp.y < h && scanned_before(
                            pp.x as int,
                            pp.y as int,
                            xx as int,
                            yy as int,
                        ) ==> #[trigger] seeds@.contains(pp),
                decreases w - xx,
            {
                let ghost s0 = seeds@;
                let np = Pos { x: xx, y: yy };
                seeds.push(np);
                proof {
                    assert forall|pp: Pos|
                        pp.x < w && pp.y < h && scanned_before(
                            pp.x as int,
                            pp.y as int,
                            xx as int + 1,
                            yy as int,
                        ) implies #[trigger] seeds@.contains(pp) by {
                        if pp == np {
                            assert(seeds@[s0.len() as int] == np);
                        } else {
                            assert(s0.contains(pp));
                            let wi = choose|i: int| 0 <= i < s0.len() && s0[i] == pp;
                            assert(seeds@[wi] == pp);
                        }
                    }
                }
                xx = xx + 1;
            }
            yy = yy + 1;
        }
        let ghost g0 = self.grid;
        let prop = propagate(&self.model, &mut self.grid, &seeds);
        proof {
            // Every cell is a seed, so nothing at all had to be consistent
            // at entry, and success means the whole grid now is.
            assert forall|pp: Pos, dd: Direction|
                g0.in_bounds(pp) && !seeds@.contains(pp) implies #[trigger] arc_ok(
                self.model,
                g0,
                pp,
                dd,
            ) by {
                assert(seeds@.contains(pp));
            }
            assert(settled_except_seeds(self.model, g0, seeds@));
        }
        prop
    }

    /// Makes the fresh grid arc-consistent once, before any collapse is
    /// committed.
    fn prime(&mut self) -> (r: StepResult)
        requires
            old(self).wf(),
        ensures
            final(self).wf(),
            final(self).grid.same_shape(old(self).grid),
            !(r is Done),
            final(self).retries >= old(self).retries,
            final(self).model == old(self).model,
            r is Continue ==> final(self).primed && stable(final(self).model, final(self).grid),
            r matches StepResult::Failed(u) ==> u.retries == final(self).retries
                && u.last_contradiction == final(self).last_contradiction,
            all_compatible(old(self).model) ==> r is Continue && final(self).retries
                == old(self).retries && grid_unc(final(self).grid.cells@) <= grid_unc(
                old(self).grid.cells@,
            ),
    {
        proof {
            if all_compatible(self.model) {
                lemma_all_compatible_stable(self.model, self.grid);
            }
        }
        let prop = self.make_consistent();
        match prop {
            Result::Ok(()) => {
                self.primed = true;
                proof {
                    if all_compatible(old(self).model) {
                        assert(self.grid.dom_eq(old(self).grid));
                        assert forall|y: int, x: int|
                            0 <= y < self.grid.cells@.len() && 0 <= x < self.grid.cells@[y]@.len()
                            implies dom_unc(#[trigger] self.grid.cells@[y]@[x]@) <= dom_unc(
                            #[trigger] old(self).grid.cells@[y]@[x]@,
                        ) by {
                            assert(self.grid.dom(x, y) == old(self).grid.dom(x, y));
                        }
                        lemma_grid_unc_le(self.grid.cells@, old(self).grid.cells@);
                    }
                }
                StepResult::Continue
            },
            Result::Err(c) => {
                proof {
                    if all_compatible(old(self).model) {
                        assert(false);
                    }
                }
                self.last_contradiction = Option::Some(c.at);
                if self.retries < usize::MAX {
                    self.retries = self.retries + 1;
                }
                self.recover()
            },
        }
    }

    /// Applies the configured recovery policy after a contradiction. A
    /// successful recovery hands back an arc-consistent grid; on exhaustion
    /// the grid is reset to full domains and the failure reported.
    fn recover(&mut self) -> (r: StepResult)
        requires
            old(self).catalog.wf(),
            old(self).model.is_model_of(old(self).catalog),
            old(self).model.n_tiles >= 1,
            old(self).grid.wf(),
            old(self).grid.n_tiles == old(self).model.n_tiles,
            forall|i: int|
                0 <= i < old(self).snapshots@.len() ==> snapshot_wf(
                    #[trigger] old(self).snapshots@[i],
                    old(self).model,
                    old(self).grid,
                ),
        ensures
            final(self).wf(),
            final(self).grid.same_shape(old(self).grid),
            !(r is Done),
            final(self).retries >= old(self).retries,
            final(self).model == old(self).model,
            r is Continue ==> final(self).primed && stable(final(self).model, final(self).grid),
            r matches StepResult::Failed(u) ==> u.retries == final(self).retries
                && u.last_contradiction == final(self).last_contradiction,
    {
        let w = self.grid.width;
        let h = self.grid.height;
        let n = self.grid.n_tiles;
        self.primed = false;
        let restart = match self.config.retry_policy {
            RetryPolicy::Restart => true,
            RetryPolicy::Stepwise => false,
        };
        if restart {
            self.snapshots = Vec::new();
            loop
                invariant
                    w == old(self).grid.width,
                    h == old(self).grid.height,
                    n == old(self).grid.n_tiles,
                    self.catalog == old(self).catalog,
                    self.model == old(self).model,
                    self.config == old(self).config,
                    self.rng == old(self).rng,
                    self.catalog.wf(),
                    self.model.is_model_of(self.catalog),
                    self.model.n_tiles >= 1,
                    self.grid.wf(),
                    self.grid.same_shape(old(self).grid),
                    self.grid.n_tiles == self.model.n_tiles,
                    self.snapshots@.len() == 0,
                    !self.primed,
                    self.retries >= old(self).retries,
                ensures
                    self.wf(),
                    self.grid.same_shape(old(self).grid),
                    !self.primed,
                    self.snapshots@.len() == 0,
                    self.retries >= old(self).retries,
                decreases self.config.max_retries as int + 1 - self.retries as int,
            {
                if self.retries > self.config.max_retries || self.retries == usize::MAX {
                    self.grid = Grid::new(w, h, n);
                    break;
                }
                // A fresh attempt: full domains, then the initial
                // arc-consistency pass; a contradiction there burns a retry
                // like any other.
                self.grid = Grid::new(w, h, n);
                let prop = self.make_consistent();
                match prop {
                    Result::Ok(()) => {
                        self.primed = true;
                        return StepResult::Continue;
                    },
                    Result::Err(c) => {
                        self.last_contradiction = Option::Some(c.at);
                        self.retries = self.retries + 1;
                    },
                }
            }
            StepResult::Failed(
                Unsolvable { retries: self.retries, last_contradiction: self.last_contradiction },
            )
        } else {
            loop
                invariant
                    w == old(self).grid.width,
                    h == old(self).grid.height,
                    n == old(self).grid.n_tiles,
                    self.catalog == old(self).catalog,
                    self.model == old(self).model,
                    self.config == old(self).config,
                    self.rng == old(self).rng,
                    self.catalog.wf(),
                    self.model.is_model_of(self.catalog),
                    self.model.n_tiles >= 1,
                    self.grid.wf(),
                    self.grid.same_shape(old(self).grid),
                    self.grid.n_tiles == self.model.n_tiles,
                    !self.primed,
                    self.retries >= old(self).retries,
                    forall|i: int|
                        0 <= i < self.snapshots@.len() ==> snapshot_wf(
                            #[trigger] self.snapshots@[i],
                            self.model,
                            self.grid,
                        ),
                ensures
                    self.wf(),
                    self.grid.same_shape(old(self).grid),
                    self.snapshots@.len() == 0,
                    self.retries >= old(self).retries,
                decreases self.snapshots@.len(),
            {
                let popped = self.snapshots.pop();
                match popped {
                    Option::Some(snap) => {
                        let ghost sg = snap.grid;
                        self.grid = snap.grid;
                        let alive = self.grid.forbid(snap.at, snap.tile);
                        if alive {
                            proof {
                                assert forall|x: int, y: int|
                                    0 <= x < self.grid.width && 0 <= y < self.grid.height
                                    implies nonempty(#[trigger] self.grid.dom(x, y)) by {
                                    if !(x == snap.at.x as int && y == snap.at.y as int) {
                                        assert(self.grid.dom(x, y) == sg.dom(x, y));
                                    }
                                }
                            }
                            // The forbidden choice may leave arcs from this
                            // cell inconsistent: restore arc-consistency, and
                            // keep popping if that in turn contradicts.
                            let mut seeds: Vec<Pos> = Vec::new();
                            seeds.push(snap.at);
                            let ghost gfb = self.grid;
                            proof {
                                // The snapshot was arc-consistent and the
                                // forbid only shrank the domain at its cell:
                                // only arcs from the seed can be broken.
                                assert(seeds@[0] == snap.at);
                                assert forall|r: Pos, dd: Direction|
                                    gfb.in_bounds(r) && !seeds@.contains(r)
                                    implies #[trigger] arc_ok(self.model, gfb, r, dd) by {
                                    assert(r != snap.at) by {
                                        if r == snap.at {
                                            assert(seeds@[0] == r);
                                        }
                                    }
                                    assert(arc_ok(self.model, sg, r, dd));
                                    assert(gfb.dom(r.x as int, r.y as int) == sg.dom(
                                        r.x as int,
                                        r.y as int,
                                    ));
                                    match sg.nbr(r, dd) {
                                        Option::Some(s) => {
                                            assert(gfb.nbr(r, dd) == Option::Some(s));
                                            assert(sg.in_bounds(s));
                                            lemma_subset_trans(
                                                gfb.dom(s.x as int, s.y as int),
                                                sg.dom(s.x as int, s.y as int),
                                                allowed_union(
                                                    self.model,
                                                    sg.dom(r.x as int, r.y as int),
                                                    dd,
                                                ),
                                            );
                                        },
                                        Option::None => {
                                            assert(gfb.nbr(r, dd) is None);
                                        },
                                    }
                                }
                            }
                            let prop = propagate(&self.model, &mut self.grid, &seeds);
                            match prop {
                                Result::Ok(()) => {
                                    proof {
                                        assert(stable(self.model, self.grid));
                                    }
                                    self.primed = true;
                                    return StepResult::Continue;
                                },
                                Result::Err(c) => {
                                    self.last_contradiction = Option::Some(c.at);
                                    if self.retries < usize::MAX {
                                        self.retries = self.retries + 1;
                                    }
                                },
                            }
                        }
                    },
                    Option::None => {
                        self.grid = Grid::new(w, h, n);
                        break;
                    },
                }
            }
            StepResult::Failed(
                Unsolvable { retries: self.retries, last_contradiction: self.last_contradiction },
            )
        }
    }

    /// Runs selection, commit and propagation to completion: a fully
    /// collapsed, arc-consistent grid, or `Unsolvable` once the retry
    /// policy (and the iteration budget derived from the grid size and the
    /// configured bounds) is exhausted. Under a relation that permits every
    /// tile pair nothing can contradict, so success is owed whenever the
    /// budget arithmetic fits in its counter.
    pub fn run(&mut self) -> (r: Result<Grid, Unsolvable>)
        requires
            old(self).wf(),
        ensures
            final(self).wf(),
            r matches Ok(g) ==> g.wf() && g.fully_collapsed() && g.same_shape(old(self).grid)
                && stable(final(self).model, g),
            r matches Err(u) ==> u.retries == final(self).retries && u.last_contradiction
                == final(self).last_contradiction,
            all_compatible(old(self).model) && old(self).grid.width as int
                * old(self).grid.height as int + 2 <= u64::MAX as int ==> r is Ok
                && final(self).retries == old(self).retries,
    {
        let ghost easy = all_compatible(old(self).model) && old(self).grid.width as int
            * old(self).grid.height as int + 2 <= u64::MAX as int;
        let cells = sat_mul(self.grid.width as u64, self.grid.height as u64);
        let per_attempt = sat_add(cells, 2);
        let attempts = sat_add(
            sat_add(self.config.max_retries as u64, 1),
            self.config.max_backtrack_depth as u64,
        );
        let mut fuel: u64 = sat_mul(attempts, per_attempt);
        proof {
            if easy {
                assert(fuel as int >= per_attempt as int) by {
                    if attempts as int * per_attempt as int <= u64::MAX as int {
                        assert(attempts as int * per_attempt as int >= 1 * per_attempt as int)
                            by (nonlinear_arith)
                            requires
                                attempts as int >= 1,
                                per_attempt as int >= 0,
                        ;
                    }
                }
                lemma_grid_unc_bound(self.grid.cells@, self.grid.width as int);
                assert(self.grid.height as int * self.grid.width as int == self.grid.width as int
                    * self.grid.height as int) by (nonlinear_arith);
                assert(fuel as int >= grid_unc(self.grid.cells@) + 2);
            }
        }
        while fuel > 0
            invariant
                self.wf(),
                self.grid.same_shape(old(self).grid),
                self.model == old(self).model,
                easy == (all_compatible(old(self).model) && old(self).grid.width as int
                    * old(self).grid.height as int + 2 <= u64::MAX as int),
                easy ==> fuel as int >= grid_unc(self.grid.cells@) + (if self.primed {
                    1int
                } else {
                    2int
                }),
                easy ==> self.retries == old(self).retries,
            decreases fuel,
        {
            fuel = fuel - 1;
            let ghost pre = *self;
            let res = self.step();
            match res {
                StepResult::Continue => {
                    proof {
                        if easy {
                            if pre.primed {
                                assert(grid_unc(self.grid.cells@) < grid_unc(pre.grid.cells@));
                            } else {
                                assert(grid_unc(self.grid.cells@) <= grid_unc(pre.grid.cells@));
                            }
                        }
                    }
                },
                StepResult::Done(g) => {
                    return Ok(g);
                },
                StepResult::Failed(u) => {
                    proof {
                        if easy {
                            assert(false);
                        }
                    }
                    return Err(u);
                },
            }
        }
        proof {
            if easy {
                assert(false);
            }
        }
        Err(Unsolvable { retries: self.retries, last_contradiction: self.last_contradiction })
    }

    pub fn retries(&self) -> (n: usize)
        ensures
            n == self.retries,
    {
        self.retries
    }

    pub fn last_contradiction(&self) -> (p: Option<Pos>)
        ensures
            p == self.last_contradiction,
    {
        self.last_contradiction
    }

    /// The solver's current grid, read-only.
    pub fn grid(&self) -> (g: &Grid)
        ensures
            g == self.grid,
    {
        &self.grid
    }

    /// The catalog this solver draws tiles from, read-only.
    pub fn catalog(&self) -> (c: &TileCatalog)
        ensures
            c == self.catalog,
    {
        &self.catalog
    }
}

} // verus!
