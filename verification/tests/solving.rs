use wfc::grid::{Grid, Pos};
use wfc::model::CompatibilityModel;
use wfc::solver::{RetryPolicy, Solver, SolverConfig, StepResult};
use wfc::tiles::{TileCatalog, TileRecord};

fn rec(name: &str, n: &str, w: &str, s: &str, e: &str) -> TileRecord {
    TileRecord {
        name: name.to_string(),
        image: format!("{}.png", name),
        north: Some(n.to_string()),
        west: Some(w.to_string()),
        south: Some(s.to_string()),
        east: Some(e.to_string()),
    }
}

fn config(seed: u64, policy: RetryPolicy) -> SolverConfig {
    SolverConfig {
        seed,
        retry_policy: policy,
        max_retries: 8,
        max_backtrack_depth: 16,
        tile_weights: None,
    }
}

fn solver_for(records: Vec<TileRecord>, w: usize, h: usize, cfg: SolverConfig) -> Solver {
    let cat = TileCatalog::build(records).unwrap();
    let model = CompatibilityModel::build(&cat).unwrap();
    assert!(cat.tile_count() >= 1);
    Solver::new(cat, model, w, h, cfg)
}

fn collapsed_tiles(g: &Grid, w: usize, h: usize) -> Vec<usize> {
    let mut out = Vec::new();
    for y in 0..h {
        for x in 0..w {
            out.push(g.collapsed_tile(Pos { x, y }).expect("cell not collapsed"));
        }
    }
    out
}

#[test]
fn single_tile_catalog_fills_the_grid() {
    // One tile whose four edges share a label: a three-by-three grid
    // collapses everywhere to that tile without a single contradiction.
    let records = vec![rec("only", "a", "a", "a", "a")];
    let mut s = solver_for(records, 3, 3, config(7, RetryPolicy::Restart));
    let g = s.run().unwrap();
    assert!(g.is_fully_collapsed());
    assert_eq!(collapsed_tiles(&g, 3, 3), vec![0; 9]);
    assert_eq!(s.retries(), 0);
    assert_eq!(s.last_contradiction(), None);
}

#[test]
fn isolated_tiles_give_a_uniform_grid() {
    // Two tiles with no cross-compatibility: the solve succeeds and the
    // two-by-two grid is all one tile or all the other, never mixed.
    for seed in 0..12u64 {
        let records = vec![rec("x", "x", "x", "x", "x"), rec("y", "y", "y", "y", "y")];
        let mut s = solver_for(records, 2, 2, config(seed, RetryPolicy::Restart));
        let g = s.run().unwrap();
        let tiles = collapsed_tiles(&g, 2, 2);
        assert!(tiles == vec![0; 4] || tiles == vec![1; 4], "mixed grid: {:?}", tiles);
    }
}

#[test]
fn incompatible_tiles_are_unsolvable_without_retries() {
    // No tile tolerates any neighbour; with the restart policy and a retry
    // budget of zero the very first contradiction is terminal.
    let records = vec![rec("t0", "a", "b", "c", "d"), rec("t1", "e", "f", "g", "h")];
    let mut cfg = config(3, RetryPolicy::Restart);
    cfg.max_retries = 0;
    let mut s = solver_for(records, 2, 1, cfg);
    let u = s.run().unwrap_err();
    assert_eq!(u.retries, 1);
    assert!(u.last_contradiction.is_some());
    // The failure carries the solver's own diagnosis.
    assert_eq!(u.retries, s.retries());
    assert_eq!(u.last_contradiction, s.last_contradiction());
}

#[test]
fn tightest_budget_still_solves() {
    // Two mutually all-compatible tiles leave every propagation a no-op, so
    // the solve needs its full step allowance: one step to make the grid
    // arc-consistent, one per cell, and one to observe completion — with no
    // retry or backtrack headroom at all.
    for (w, h) in [(1usize, 1usize), (2, 2), (3, 2)] {
        let records = vec![rec("first", "a", "a", "a", "a"), rec("second", "a", "a", "a", "a")];
        let mut cfg = config(0, RetryPolicy::Restart);
        cfg.max_retries = 0;
        cfg.max_backtrack_depth = 0;
        let mut s = solver_for(records, w, h, cfg);
        let g = s.run().unwrap_or_else(|u| panic!("{}x{} grid gave up: retries {}", w, h, u.retries));
        assert!(g.is_fully_collapsed());
        assert_eq!(s.retries(), 0);
    }
}

#[test]
fn incompatible_tiles_are_unsolvable_with_stepwise_backtrack() {
    let records = vec![rec("t0", "a", "b", "c", "d"), rec("t1", "e", "f", "g", "h")];
    let mut s = solver_for(records, 2, 2, config(5, RetryPolicy::Stepwise));
    assert!(s.run().is_err());
}

#[test]
fn solves_are_deterministic_for_a_seed() {
    let records = vec![
        rec("grass", "g", "g", "g", "g"),
        rec("water", "w", "w", "w", "w"),
        rec("shore", "g", "g", "g", "g"),
    ];
    let mut a = solver_for(records.clone(), 4, 4, config(42, RetryPolicy::Restart));
    let mut b = solver_for(records, 4, 4, config(42, RetryPolicy::Restart));
    let ga = a.run().unwrap();
    let gb = b.run().unwrap();
    assert_eq!(collapsed_tiles(&ga, 4, 4), collapsed_tiles(&gb, 4, 4));
}

#[test]
fn zero_weight_tiles_are_never_chosen() {
    let records = vec![rec("x", "x", "x", "x", "x"), rec("y", "y", "y", "y", "y")];
    for seed in 0..8u64 {
        let mut cfg = config(seed, RetryPolicy::Restart);
        cfg.tile_weights = Some(vec![3, 0]);
        let mut s = solver_for(records.clone(), 2, 2, cfg);
        let g = s.run().unwrap();
        assert_eq!(collapsed_tiles(&g, 2, 2), vec![0; 4]);
    }
}

#[test]
fn all_zero_weights_fall_back_to_uniform() {
    // A weight table of zeros must not wedge the draw: the pick falls back
    // to a uniform choice and the solve still finishes.
    let records = vec![rec("x", "x", "x", "x", "x"), rec("y", "y", "y", "y", "y")];
    for seed in 0..6u64 {
        let mut cfg = config(seed, RetryPolicy::Restart);
        cfg.tile_weights = Some(vec![0, 0]);
        let mut s = solver_for(records.clone(), 2, 2, cfg);
        let g = s.run().unwrap();
        let tiles = collapsed_tiles(&g, 2, 2);
        assert!(tiles == vec![0; 4] || tiles == vec![1; 4]);
    }
}

#[test]
fn stepping_reaches_done_incrementally() {
    let records = vec![rec("x", "x", "x", "x", "x"), rec("y", "y", "y", "y", "y")];
    let mut s = solver_for(records, 3, 2, config(11, RetryPolicy::Stepwise));
    let mut steps = 0usize;
    loop {
        match s.step() {
            StepResult::Continue => {
                steps += 1;
                assert!(steps <= 100, "step loop did not terminate");
            }
            StepResult::Done(g) => {
                assert!(g.is_fully_collapsed());
                break;
            }
            StepResult::Failed(u) => panic!("unexpected failure: retries {}", u.retries),
        }
    }
}

#[test]
fn solved_grid_respects_adjacency() {
    // A mixed catalog: plain tiles plus two that open and close a "b" seam.
    let records = vec![
        rec("plain", "a", "a", "a", "a"),
        rec("open", "a", "a", "a", "b"),
        rec("close", "a", "b", "a", "a"),
    ];
    for seed in 0..6u64 {
        let mut s = solver_for(records.clone(), 4, 4, config(seed, RetryPolicy::Stepwise));
        let g = s.run().unwrap();
        let tiles = collapsed_tiles(&g, 4, 4);
        for y in 0..4usize {
            for x in 0..4usize {
                let here = tiles[y * 4 + x];
                if x + 1 < 4 {
                    let east = tiles[y * 4 + x + 1];
                    assert!(s.model.is_compatible(here, wfc::tiles::Direction::East, east));
                }
                if y + 1 < 4 {
                    let south = tiles[(y + 1) * 4 + x];
                    assert!(s.model.is_compatible(here, wfc::tiles::Direction::South, south));
                }
            }
        }
    }
}

#[test]
fn checker_board_alternates() {
    // Each tile's edges only match the other tile's facing edges: adjacent
    // cells must alternate horizontally and vertically.
    let records = vec![rec("even", "c", "b", "d", "a"), rec("odd", "d", "a", "c", "b")];
    let mut s = solver_for(records, 4, 4, config(9, RetryPolicy::Stepwise));
    let g = s.run().unwrap();
    let tiles = collapsed_tiles(&g, 4, 4);
    let first = tiles[0];
    for y in 0..4usize {
        for x in 0..4usize {
            let expect = (first + x + y) % 2;
            assert_eq!(tiles[y * 4 + x], expect, "not a checker board: {:?}", tiles);
        }
    }
}
