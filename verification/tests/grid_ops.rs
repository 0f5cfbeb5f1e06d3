use wfc::grid::{Grid, InvalidCollapse, Pos};
use wfc::tiles::Direction;

#[test]
fn new_grid_has_full_domains() {
    let g = Grid::new(3, 2, 4);
    for y in 0..2usize {
        for x in 0..3usize {
            let p = Pos { x, y };
            assert_eq!(g.domain_size_at(p), 4);
            assert_eq!(g.domain_at(p), &vec![true, true, true, true]);
            assert_eq!(g.collapsed_tile(p), None);
        }
    }
    assert!(!g.is_fully_collapsed());
}

#[test]
fn collapse_sets_a_singleton() {
    let mut g = Grid::new(2, 2, 3);
    let p = Pos { x: 1, y: 0 };
    g.collapse(p, 2).unwrap();
    assert_eq!(g.domain_at(p), &vec![false, false, true]);
    assert_eq!(g.domain_size_at(p), 1);
    assert_eq!(g.collapsed_tile(p), Some(2));
    // Other cells are untouched.
    assert_eq!(g.domain_size_at(Pos { x: 0, y: 0 }), 3);
}

#[test]
fn collapse_outside_the_domain_is_invalid() {
    let mut g = Grid::new(1, 1, 3);
    let p = Pos { x: 0, y: 0 };
    let allowed = vec![true, false, true];
    g.restrict(p, &allowed).unwrap();
    let err = g.collapse(p, 1).unwrap_err();
    assert_eq!(err, InvalidCollapse { at: p, tile: 1 });
    // The failed collapse changed nothing.
    assert_eq!(g.domain_at(p), &vec![true, false, true]);
}

#[test]
fn restrict_reports_change_and_contradiction() {
    let mut g = Grid::new(1, 1, 3);
    let p = Pos { x: 0, y: 0 };
    let changed = g.restrict(p, &vec![true, false, true]).unwrap();
    assert!(changed);
    let unchanged = g.restrict(p, &vec![true, false, true]).unwrap();
    assert!(!unchanged);
    let err = g.restrict(p, &vec![false, true, false]).unwrap_err();
    assert_eq!(err.at, p);
    assert_eq!(g.domain_size_at(p), 0);
}

#[test]
fn restrict_never_grows_a_domain() {
    let mut g = Grid::new(1, 1, 4);
    let p = Pos { x: 0, y: 0 };
    let mut last = g.domain_size_at(p);
    for allowed in [
        vec![true, true, true, false],
        vec![true, true, true, true],
        vec![false, true, true, false],
    ] {
        g.restrict(p, &allowed).unwrap();
        let now = g.domain_size_at(p);
        assert!(now <= last);
        last = now;
    }
}

#[test]
fn forbid_removes_one_candidate() {
    let mut g = Grid::new(1, 1, 2);
    let p = Pos { x: 0, y: 0 };
    assert!(g.forbid(p, 0));
    assert_eq!(g.domain_at(p), &vec![false, true]);
    assert!(!g.forbid(p, 1));
    assert_eq!(g.domain_size_at(p), 0);
}

#[test]
fn neighbors_respect_the_boundary() {
    let g = Grid::new(3, 3, 1);
    // Centre cell: all four, in north, west, south, east order.
    let n = g.neighbors(Pos { x: 1, y: 1 });
    assert_eq!(
        n,
        vec![
            (Direction::North, Pos { x: 1, y: 0 }),
            (Direction::West, Pos { x: 0, y: 1 }),
            (Direction::South, Pos { x: 1, y: 2 }),
            (Direction::East, Pos { x: 2, y: 1 }),
        ]
    );
    // North-west corner: no wraparound.
    let c = g.neighbors(Pos { x: 0, y: 0 });
    assert_eq!(
        c,
        vec![(Direction::South, Pos { x: 0, y: 1 }), (Direction::East, Pos { x: 1, y: 0 })]
    );
    // South-east corner.
    let c = g.neighbors(Pos { x: 2, y: 2 });
    assert_eq!(
        c,
        vec![(Direction::North, Pos { x: 2, y: 1 }), (Direction::West, Pos { x: 1, y: 2 })]
    );
}

#[test]
fn single_cell_grid_has_no_neighbors() {
    let g = Grid::new(1, 1, 1);
    assert_eq!(g.neighbors(Pos { x: 0, y: 0 }), vec![]);
}

#[test]
fn fully_collapsed_needs_every_cell() {
    let mut g = Grid::new(2, 1, 2);
    g.collapse(Pos { x: 0, y: 0 }, 0).unwrap();
    assert!(!g.is_fully_collapsed());
    g.collapse(Pos { x: 1, y: 0 }, 1).unwrap();
    assert!(g.is_fully_collapsed());
}

#[test]
fn snapshot_is_an_independent_copy() {
    let mut g = Grid::new(2, 1, 2);
    let snap = g.snapshot();
    g.collapse(Pos { x: 0, y: 0 }, 0).unwrap();
    assert_eq!(snap.domain_size_at(Pos { x: 0, y: 0 }), 2);
    assert_eq!(g.domain_size_at(Pos { x: 0, y: 0 }), 1);
}
