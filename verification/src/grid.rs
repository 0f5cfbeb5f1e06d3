//! The rectangular lattice of cells. Each cell holds a domain (the candidate
//! tile ids still possible there); boundary cells simply have fewer
//! neighbours (no wraparound). All mutation is confined to the addressed
//! cell: propagation across cells is the propagator's job.

use vstd::prelude::*;

use crate::domain::{
    any_true, copy_domain, count_true, full_domain, intersect, lemma_nonempty_popcnt,
    lemma_popcnt_singleton, lemma_popcnt_two, nonempty, popcnt, subset_of,
};
use crate::tiles::Direction;

verus! {

/// A cell position: `x` counts columns (west to east), `y` counts rows
/// (north to south).
#[derive(Clone, Copy, PartialEq, Eq, Structural, Debug)]
pub struct Pos {
    pub x: usize,
    pub y: usize,
}

/// Defensive fault: an attempt to collapse a cell to a tile that is not in
/// its domain. Indicates a solver logic bug, never a data problem.
#[derive(Clone, Copy, PartialEq, Eq, Structural, Debug)]
pub struct InvalidCollapse {
    pub at: Pos,
    pub tile: usize,
}

/// A cell's domain became empty: the current partial assignment is
/// unsatisfiable. Recoverable by the solver's retry policy.
#[derive(Clone, Copy, PartialEq, Eq, Structural, Debug)]
pub struct Contradiction {
    pub at: Pos,
}

/// A fixed width-by-height lattice of cells, each holding a domain over the
/// same `n_tiles` tile identifiers. `cells[y][x]` is the domain of the cell
/// at column `x` of row `y`.
#[derive(Debug)]
pub struct Grid {
    pub width: usize,
    pub height: usize,
    pub n_tiles: usize,
    pub cells: Vec<Vec<Vec<bool>>>,
}

impl Grid {
    pub open spec fn wf(self) -> bool {
        &&& self.cells@.len() == self.height
        &&& forall|y: int|
            0 <= y < self.height ==> (#[trigger] self.cells@[y])@.len() == self.width
        &&& forall|y: int, x: int|
            0 <= y < self.height && 0 <= x < self.width ==> (#[trigger] self.cells@[y]@[x])@.len()
                == self.n_tiles
    }

    /// The domain of the cell at column `x`, row `y`.
    pub open spec fn dom(self, x: int, y: int) -> Seq<bool> {
        self.cells@[y]@[x]@
    }

    pub open spec fn in_bounds(self, p: Pos) -> bool {
        p.x < self.width && p.y < self.height
    }

    /// No cell's domain is empty: the grid is in a consistent state.
    pub open spec fn all_nonempty(self) -> bool {
        forall|x: int, y: int|
            0 <= x < self.width && 0 <= y < self.height ==> nonempty(#[trigger] self.dom(x, y))
    }

    /// Every cell's domain is a singleton.
    pub open spec fn fully_collapsed(self) -> bool {
        forall|x: int, y: int|
            0 <= x < self.width && 0 <= y < self.height ==> popcnt(#[trigger] self.dom(x, y)) == 1
    }

    pub open spec fn same_shape(self, other: Grid) -> bool {
        &&& self.width == other.width
        &&& self.height == other.height
        &&& self.n_tiles == other.n_tiles
    }

    /// Every cell's domain in `self` is a subset of its domain in `other`:
    /// no candidate ever reappears.
    pub open spec fn domains_subset_of(self, other: Grid) -> bool {
        forall|x: int, y: int|
            0 <= x < self.width && 0 <= y < self.height ==> subset_of(
                #[trigger] self.dom(x, y),
                other.dom(x, y),
            )
    }

    /// All domains equal except possibly the cell at (`px`, `py`).
    pub open spec fn dom_unchanged_except(self, other: Grid, px: int, py: int) -> bool {
        forall|x: int, y: int|
            0 <= x < self.width && 0 <= y < self.height && !(x == px && y == py)
                ==> #[trigger] self.dom(x, y) == other.dom(x, y)
    }

    /// All domains equal.
    pub open spec fn dom_eq(self, other: Grid) -> bool {
        forall|x: int, y: int|
            0 <= x < self.width && 0 <= y < self.height ==> #[trigger] self.dom(x, y) == other.dom(
                x,
                y,
            )
    }

    /// The neighbouring position in direction `d`, if it lies on the grid.
    pub open spec fn nbr(self, p: Pos, d: Direction) -> Option<Pos> {
        match d {
            Direction::North => if p.y >= 1 {
                Option::Some(Pos { x: p.x, y: (p.y - 1) as usize })
            } else {
                Option::None
            },
            Direction::West => if p.x >= 1 {
                Option::Some(Pos { x: (p.x - 1) as usize, y: p.y })
            } else {
                Option::None
            },
            Direction::South => if p.y + 1 < self.height {
                Option::Some(Pos { x: p.x, y: (p.y + 1) as usize })
            } else {
                Option::None
            },
            Direction::East => if p.x + 1 < self.width {
                Option::Some(Pos { x: (p.x + 1) as usize, y: p.y })
            } else {
                Option::None
            },
        }
    }

    /// The neighbour list of `p` in the fixed north, west, south, east order.
    pub open spec fn spec_neighbors(self, p: Pos) -> Seq<(Direction, Pos)> {
        let s = Seq::<(Direction, Pos)>::empty();
        let s = if self.nbr(p, Direction::North) is Some {
            s.push((Direction::North, self.nbr(p, Direction::North)->Some_0))
        } else {
            s
        };
        let s = if self.nbr(p, Direction::West) is Some {
            s.push((Direction::West, self.nbr(p, Direction::West)->Some_0))
        } else {
            s
        };
        let s = if self.nbr(p, Direction::South) is Some {
            s.push((Direction::South, self.nbr(p, Direction::South)->Some_0))
        } else {
            s
        };
        if self.nbr(p, Direction::East) is Some {
            s.push((Direction::East, self.nbr(p, Direction::East)->Some_0))
        } else {
            s
        }
    }

    /// A fresh grid with the given dimensions in which every cell's domain
    /// holds all `n_tiles` tiles.
    pub fn new(width: usize, height: usize, n_tiles: usize) -> (g: Grid)
        ensures
            g.wf(),
            g.width == width,
            g.height == height,
            g.n_tiles == n_tiles,
            forall|x: int, y: int, t: int|
                0 <= x < width && 0 <= y < height && 0 <= t < n_tiles ==> #[trigger] g.dom(
                    x,
                    y,
                )[t],
            n_tiles >= 1 ==> g.all_nonempty(),
    {
        let mut cells: Vec<Vec<Vec<bool>>> = Vec::new();
        let mut y: usize = 0;
        while y < height
            invariant
                y <= height,
                cells@.len() == y,
                forall|yy: int| 0 <= yy < y ==> (#[trigger] cells@[yy])@.len() == width,
                forall|yy: int, x: int|
                    0 <= yy < y && 0 <= x < width ==> (#[trigger] cells@[yy]@[x])@.len() == n_tiles,
                forall|yy: int, x: int, t: int|
                    0 <= yy < y && 0 <= x < width && 0 <= t < n_tiles
                        ==> #[trigger] cells@[yy]@[x]@[t],
            decreases height - y,
        {
            let mut row: Vec<Vec<bool>> = Vec::new();
            let mut x: usize = 0;
            while x < width
                invariant
                    x <= width,
                    row@.len() == x,
                    forall|xx: int| 0 <= xx < x ==> (#[trigger] row@[xx])@.len() == n_tiles,
                    forall|xx: int, t: int|
                        0 <= xx < x && 0 <= t < n_tiles ==> #[trigger] row@[xx]@[t],
                decreases width - x,
            {
                row.push(full_domain(n_tiles));
                x = x + 1;
            }
            cells.push(row);
            y = y + 1;
        }
        let g = Grid { width, height, n_tiles, cells };
        proof {
            if n_tiles >= 1 {
                assert forall|x: int, y2: int|
                    0 <= x < width && 0 <= y2 < height implies nonempty(#[trigger] g.dom(x, y2)) by {
                    assert(g.dom(x, y2)[0]);
                }
            }
        }
        g
    }

    /// The domain of the cell at `p`.
    pub fn domain_at(&self, p: Pos) -> (r: &Vec<bool>)
        requires
            self.wf(),
            self.in_bounds(p),
        ensures
            r@ == self.dom(p.x as int, p.y as int),
    {
        &self.cells[p.y][p.x]
    }

    /// How many candidates remain at `p`.
    pub fn domain_size_at(&self, p: Pos) -> (n: usize)
        requires
            self.wf(),
            self.in_bounds(p),
        ensures
            n == popcnt(self.dom(p.x as int, p.y as int)),
    {
        count_true(&self.cells[p.y][p.x])
    }

    /// Intersects the domain at `p` with `allowed`. Reports whether any
    /// candidate was removed; reports the contradiction instead of panicking
    /// when the intersection is empty (the domain keeps the emptied value).
    pub fn restrict(&mut self, p: Pos, allowed: &Vec<bool>) -> (r: Result<bool, Contradiction>)
        requires
            old(self).wf(),
            old(self).in_bounds(p),
            allowed@.len() == old(self).n_tiles,
        ensures
            final(self).wf(),
            final(self).same_shape(*old(self)),
            forall|t: int|
                0 <= t < old(self).n_tiles ==> #[trigger] final(self).dom(
                    p.x as int,
                    p.y as int,
                )[t] == (old(self).dom(p.x as int, p.y as int)[t] && allowed@[t]),
            final(self).dom_unchanged_except(*old(self), p.x as int, p.y as int),
            subset_of(
                final(self).dom(p.x as int, p.y as int),
                old(self).dom(p.x as int, p.y as int),
            ),
            r is Err <==> !nonempty(final(self).dom(p.x as int, p.y as int)),
            r matches Err(c) ==> c == (Contradiction { at: p }),
            r matches Ok(changed) ==> changed == exists|t: int|
                0 <= t < old(self).n_tiles && #[trigger] old(self).dom(p.x as int, p.y as int)[t]
                    && !allowed@[t],
            r matches Ok(false) ==> final(self).dom(p.x as int, p.y as int) == old(self).dom(
                p.x as int,
                p.y as int,
            ),
    {
        let row = &mut self.cells[p.y];
        let cell = &mut row[p.x];
        let changed = intersect(cell, allowed);
        let alive = any_true(cell);
        proof {
            if !changed {
                assert(self.dom(p.x as int, p.y as int) =~= old(self).dom(
                    p.x as int,
                    p.y as int,
                ));
            }
        }
        if alive {
            Ok(changed)
        } else {
            Err(Contradiction { at: p })
        }
    }

    /// Sets the domain at `p` to the singleton `tile`. Fails with
    /// `InvalidCollapse`, leaving the grid unchanged, iff `tile` is not in
    /// the current domain.
    pub fn collapse(&mut self, p: Pos, tile: usize) -> (r: Result<(), InvalidCollapse>)
        requires
            old(self).wf(),
            old(self).in_bounds(p),
            tile < old(self).n_tiles,
        ensures
            final(self).wf(),
            final(self).same_shape(*old(self)),
            r is Ok <==> old(self).dom(p.x as int, p.y as int)[tile as int],
            final(self).dom_unchanged_except(*old(self), p.x as int, p.y as int),
            r is Ok ==> forall|t: int|
                0 <= t < old(self).n_tiles ==> #[trigger] final(self).dom(
                    p.x as int,
                    p.y as int,
                )[t] == (t == tile as int),
            r is Ok ==> popcnt(final(self).dom(p.x as int, p.y as int)) == 1,
            subset_of(
                final(self).dom(p.x as int, p.y as int),
                old(self).dom(p.x as int, p.y as int),
            ),
            r matches Err(e) ==> e == (InvalidCollapse { at: p, tile }) && final(self).dom(
                p.x as int,
                p.y as int,
            ) == old(self).dom(p.x as int, p.y as int),
    {
        if self.cells[p.y][p.x][tile] {
            let n = self.n_tiles;
            let mut cell: Vec<bool> = Vec::new();
            let mut t: usize = 0;
            while t < n
                invariant
                    t <= n,
                    cell@.len() == t,
                    forall|u: int| 0 <= u < t ==> #[trigger] cell@[u] == (u == tile as int),
                decreases n - t,
            {
                cell.push(t == tile);
                t = t + 1;
            }
            let row = &mut self.cells[p.y];
            row[p.x] = cell;
            proof {
                lemma_popcnt_singleton(self.dom(p.x as int, p.y as int), tile as int);
            }
            Ok(())
        } else {
            Err(InvalidCollapse { at: p, tile })
        }
    }

    /// Removes `tile` from the domain at `p`; reports whether the domain is
    /// still nonempty afterwards.
    pub fn forbid(&mut self, p: Pos, tile: usize) -> (alive: bool)
        requires
            old(self).wf(),
            old(self).in_bounds(p),
            tile < old(self).n_tiles,
        ensures
            final(self).wf(),
            final(self).same_shape(*old(self)),
            forall|t: int|
                0 <= t < old(self).n_tiles ==> #[trigger] final(self).dom(
                    p.x as int,
                    p.y as int,
                )[t] == (old(self).dom(p.x as int, p.y as int)[t] && t != tile as int),
            final(self).dom_unchanged_except(*old(self), p.x as int, p.y as int),
            subset_of(
                final(self).dom(p.x as int, p.y as int),
                old(self).dom(p.x as int, p.y as int),
            ),
            alive == nonempty(final(self).dom(p.x as int, p.y as int)),
    {
        let row = &mut self.cells[p.y];
        let cell = &mut row[p.x];
        cell[tile] = false;
        any_true(cell)
    }

    /// The up-to-four neighbours of `p`, in north, west, south, east order:
    /// exactly the in-range directions, each once.
    pub fn neighbors(&self, p: Pos) -> (r: Vec<(Direction, Pos)>)
        requires
            self.in_bounds(p),
        ensures
            r@ == self.spec_neighbors(p),
            forall|i: int|
                0 <= i < r@.len() ==> self.nbr(p, (#[trigger] r@[i]).0) == Option::Some(r@[i].1)
                    && self.in_bounds(r@[i].1),
            forall|d: Direction|
                self.nbr(p, d) is Some ==> exists|i: int|
                    0 <= i < r@.len() && (#[trigger] r@[i]) == (d, self.nbr(p, d)->Some_0),
    {
        let mut r: Vec<(Direction, Pos)> = Vec::new();
        let ghost mut ni: int = 0;
        let ghost mut wi: int = 0;
        let ghost mut si: int = 0;
        let ghost mut ei: int = 0;
        if p.y >= 1 {
            proof {
                ni = r@.len() as int;
            }
            r.push((Direction::North, Pos { x: p.x, y: p.y - 1 }));
        }
        if p.x >= 1 {
            proof {
                wi = r@.len() as int;
            }
            r.push((Direction::West, Pos { x: p.x - 1, y: p.y }));
        }
        if p.y + 1 < self.height {
            proof {
                si = r@.len() as int;
            }
            r.push((Direction::South, Pos { x: p.x, y: p.y + 1 }));
        }
        if p.x + 1 < self.width {
            proof {
                ei = r@.len() as int;
            }
            r.push((Direction::East, Pos { x: p.x + 1, y: p.y }));
        }
        proof {
            assert(r@ =~= self.spec_neighbors(p));
            assert forall|d: Direction| self.nbr(p, d) is Some implies exists|i: int|
                0 <= i < r@.len() && (#[trigger] r@[i]) == (d, self.nbr(p, d)->Some_0) by {
                match d {
                    Direction::North => {
                        assert(r@[ni] == (d, self.nbr(p, d)->Some_0));
                    },
                    Direction::West => {
                        assert(r@[wi] == (d, self.nbr(p, d)->Some_0));
                    },
                    Direction::South => {
                        assert(r@[si] == (d, self.nbr(p, d)->Some_0));
                    },
                    Direction::East => {
                        assert(r@[ei] == (d, self.nbr(p, d)->Some_0));
                    },
                }
            }
        }
        r
    }

    /// True iff every cell's domain has exactly one candidate left.
    pub fn is_fully_collapsed(&self) -> (r: bool)
        requires
            self.wf(),
        ensures
            r == self.fully_collapsed(),
    {
        let mut y: usize = 0;
        while y < self.height
            invariant
                y <= self.height,
                self.wf(),
                forall|xx: int, yy: int|
                    0 <= xx < self.width && 0 <= yy < y ==> popcnt(#[trigger] self.dom(xx, yy))
                        == 1,
            decreases self.height - y,
        {
            let mut x: usize = 0;
            while x < self.width
                invariant
                    x <= self.width,
                    y < self.height,
                    self.wf(),
                    forall|xx: int, yy: int|
                        0 <= xx < self.width && 0 <= yy < y ==> popcnt(#[trigger] self.dom(xx, yy))
                            == 1,
                    forall|xx: int|
                        0 <= xx < x ==> popcnt(#[trigger] self.dom(xx, y as int)) == 1,
                decreases self.width - x,
            {
                let c = count_true(&self.cells[y][x]);
                if c != 1 {
                    proof {
                        assert(popcnt(self.dom(x as int, y as int)) != 1);
                    }
                    return false;
                }
                x = x + 1;
            }
            y = y + 1;
        }
        true
    }

    /// An exact copy of the grid's current state.
    pub fn snapshot(&self) -> (g: Grid)
        requires
            self.wf(),
        ensures
            g.wf(),
            g.same_shape(*self),
            g.dom_eq(*self),
    {
        let mut cells: Vec<Vec<Vec<bool>>> = Vec::new();
        let mut y: usize = 0;
        while y < self.height
            invariant
                y <= self.height,
                self.wf(),
                cells@.len() == y,
                forall|yy: int| 0 <= yy < y ==> (#[trigger] cells@[yy])@.len() == self.width,
                forall|yy: int, x: int|
                    0 <= yy < y && 0 <= x < self.width ==> (#[trigger] cells@[yy]@[x])@ == self.dom(
                        x,
                        yy,
                    ),
            decreases self.height - y,
        {
            let mut row: Vec<Vec<bool>> = Vec::new();
            let mut x: usize = 0;
            while x < self.width
                invariant
                    x <= self.width,
                    y < self.height,
                    self.wf(),
                    row@.len() == x,
                    forall|xx: int|
                        0 <= xx < x ==> (#[trigger] row@[xx])@ == self.dom(xx, y as int),
                decreases self.width - x,
            {
                row.push(copy_domain(&self.cells[y][x]));
                x = x + 1;
            }
            cells.push(row);
            y = y + 1;
        }
        let g = Grid { width: self.width, height: self.height, n_tiles: self.n_tiles, cells };
        proof {
            assert forall|y2: int, x2: int|
                0 <= y2 < g.height && 0 <= x2 < g.width implies (#[trigger] g.cells@[y2]@[x2])@.len()
                == g.n_tiles by {
                assert(g.dom(x2, y2) == self.dom(x2, y2));
            }
        }
        g
    }

    /// The tile a cell has collapsed to: `Some(t)` iff the domain at `p` is
    /// the singleton `t`.
    pub fn collapsed_tile(&self, p: Pos) -> (r: Option<usize>)
        requires
            self.wf(),
            self.in_bounds(p),
        ensures
            r is Some <==> popcnt(self.dom(p.x as int, p.y as int)) == 1,
            r matches Some(t) ==> t < self.n_tiles && self.dom(p.x as int, p.y as int)[t as int],
    {
        let cell = &self.cells[p.y][p.x];
        let mut found: Option<usize> = Option::None;
        let mut t: usize = 0;
        while t < cell.len()
            invariant
                t <= cell@.len(),
                cell@ == self.dom(p.x as int, p.y as int),
                self.wf(),
                self.in_bounds(p),
                match found {
                    Option::Some(u) => u < t && cell@[u as int] && forall|v: int|
                        0 <= v < t && v != u ==> !cell@[v],
                    Option::None => forall|v: int| 0 <= v < t ==> !cell@[v],
                },
            decreases cell@.len() - t,
        {
            if cell[t] {
                match found {
                    Option::None => {
                        found = Option::Some(t);
                    },
                    Option::Some(u) => {
                        proof {
                            lemma_popcnt_two(cell@, u as int, t as int);
                        }
                        return Option::None;
                    },
                }
            }
            t = t + 1;
        }
        proof {
            match found {
                Option::Some(u) => {
                    lemma_popcnt_singleton(cell@, u as int);
                },
                Option::None => {
                    lemma_nonempty_popcnt(cell@);
                },
            }
        }
        found
    }
}

} // verus!
