use wfc::grid::{Grid, Pos};
use wfc::model::CompatibilityModel;
use wfc::propagate::propagate;
use wfc::tiles::{TileCatalog, TileRecord};

fn rec(name: &str, n: &str, w: &str, s: &str, e: &str) -> TileRecord {
    TileRecord {
        name: name.to_string(),
        image: format!("{}.png", name),
        north: Some(n.to_string()),
        west: Some(w.to_string()),
        south: Some(s.to_string()),
        east: Some(e.to_string()),
    }
}

/// Two tiles, each compatible only with itself in every direction.
fn two_isolated_tiles() -> CompatibilityModel {
    let cat = TileCatalog::build(vec![
        rec("x", "x", "x", "x", "x"),
        rec("y", "y", "y", "y", "y"),
    ])
    .unwrap();
    CompatibilityModel::from_catalog(&cat)
}

fn all_domains(g: &Grid, w: usize, h: usize) -> Vec<Vec<bool>> {
    let mut out = Vec::new();
    for y in 0..h {
        for x in 0..w {
            out.push(g.domain_at(Pos { x, y }).clone());
        }
    }
    out
}

#[test]
fn propagation_spreads_a_collapse() {
    let m = two_isolated_tiles();
    let mut g = Grid::new(3, 3, 2);
    let p = Pos { x: 1, y: 1 };
    g.collapse(p, 0).unwrap();
    propagate(&m, &mut g, &vec![p]).unwrap();
    for y in 0..3usize {
        for x in 0..3usize {
            assert_eq!(g.collapsed_tile(Pos { x, y }), Some(0));
        }
    }
    assert!(g.is_fully_collapsed());
}

#[test]
fn successful_propagation_leaves_no_empty_domain() {
    let m = two_isolated_tiles();
    let mut g = Grid::new(4, 3, 2);
    g.collapse(Pos { x: 0, y: 0 }, 1).unwrap();
    propagate(&m, &mut g, &vec![Pos { x: 0, y: 0 }]).unwrap();
    for y in 0..3usize {
        for x in 0..4usize {
            assert!(g.domain_size_at(Pos { x, y }) >= 1);
        }
    }
}

#[test]
fn propagation_on_a_stable_grid_changes_nothing() {
    let m = two_isolated_tiles();
    let mut g = Grid::new(3, 2, 2);
    g.collapse(Pos { x: 2, y: 0 }, 0).unwrap();
    propagate(&m, &mut g, &vec![Pos { x: 2, y: 0 }]).unwrap();
    let before = all_domains(&g, 3, 2);
    // Re-invoke on the fixpoint, seeding every cell: no domain may change.
    let mut seeds = Vec::new();
    for y in 0..2usize {
        for x in 0..3usize {
            seeds.push(Pos { x, y });
        }
    }
    propagate(&m, &mut g, &seeds).unwrap();
    assert_eq!(all_domains(&g, 3, 2), before);
}

#[test]
fn propagation_never_grows_a_domain() {
    let m = two_isolated_tiles();
    let mut g = Grid::new(3, 3, 2);
    let sizes_before: Vec<usize> =
        (0..9usize).map(|i| g.domain_size_at(Pos { x: i % 3, y: i / 3 })).collect();
    g.collapse(Pos { x: 0, y: 2 }, 0).unwrap();
    propagate(&m, &mut g, &vec![Pos { x: 0, y: 2 }]).unwrap();
    for i in 0..9usize {
        let after = g.domain_size_at(Pos { x: i % 3, y: i / 3 });
        assert!(after <= sizes_before[i]);
    }
}

#[test]
fn propagation_reports_the_contradiction_cell() {
    // Two tiles whose edge labels never match anything, so no tile tolerates
    // any horizontal or vertical neighbour at all.
    let cat = TileCatalog::build(vec![
        rec("t0", "a", "b", "c", "d"),
        rec("t1", "e", "f", "g", "h"),
    ])
    .unwrap();
    let m = CompatibilityModel::from_catalog(&cat);
    let mut g = Grid::new(2, 1, 2);
    let p = Pos { x: 0, y: 0 };
    g.collapse(p, 0).unwrap();
    let err = propagate(&m, &mut g, &vec![p]).unwrap_err();
    assert_eq!(err.at, Pos { x: 1, y: 0 });
    assert_eq!(g.domain_size_at(Pos { x: 1, y: 0 }), 0);
}
