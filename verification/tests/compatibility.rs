use wfc::model::CompatibilityModel;
use wfc::tiles::{Direction, TileCatalog, TileRecord};

fn rec(name: &str, n: &str, w: &str, s: &str, e: &str) -> TileRecord {
    TileRecord {
        name: name.to_string(),
        image: format!("{}.png", name),
        north: Some(n.to_string()),
        west: Some(w.to_string()),
        south: Some(s.to_string()),
        east: Some(e.to_string()),
    }
}

const DIRS: [Direction; 4] = [Direction::North, Direction::West, Direction::South, Direction::East];

#[test]
fn compatibility_follows_edge_label_rule() {
    // Tile 0: all edges "a". Tile 1: north/south "a", west/east "b".
    let records = vec![rec("t0", "a", "a", "a", "a"), rec("t1", "a", "b", "a", "b")];
    let cat = TileCatalog::build(records).unwrap();
    let m = CompatibilityModel::build(&cat).unwrap();
    assert_eq!(m.tile_count(), 2);
    for a in 0..2usize {
        for b in 0..2usize {
            for d in DIRS {
                let want = cat.edge_label_id(a, d) == cat.edge_label_id(b, d.flip());
                assert_eq!(m.is_compatible(a, d, b), want);
            }
        }
    }
    // Spot checks of the rule itself: vertically everything matches on "a",
    // horizontally tile 1 only accepts "b" edges facing it.
    assert!(m.is_compatible(0, Direction::North, 0));
    assert!(m.is_compatible(0, Direction::North, 1));
    assert!(m.is_compatible(0, Direction::East, 0));
    assert!(!m.is_compatible(0, Direction::East, 1));
    assert!(!m.is_compatible(1, Direction::East, 0));
    assert!(m.is_compatible(1, Direction::East, 1));
}

#[test]
fn compatible_lists_are_sorted_and_exact() {
    let records = vec![
        rec("t0", "a", "a", "a", "a"),
        rec("t1", "a", "b", "a", "b"),
        rec("t2", "c", "a", "c", "a"),
    ];
    let cat = TileCatalog::build(records).unwrap();
    let m = CompatibilityModel::from_catalog(&cat);
    for a in 0..3usize {
        for d in DIRS {
            let list = m.compatible(a, d);
            let expect: Vec<usize> = (0..3usize).filter(|&b| m.is_compatible(a, d, b)).collect();
            assert_eq!(list, expect);
        }
    }
    assert_eq!(m.compatible(0, Direction::East), vec![0, 2]);
    // "c" edges only meet tile 2's own facing "c" edge.
    assert_eq!(m.compatible(2, Direction::North), vec![2]);
    // No southern edge is labelled "b", so nothing sits west of tile 1.
    assert_eq!(m.compatible(1, Direction::West), vec![1]);
}

#[test]
fn rebuilding_the_model_is_bit_identical() {
    let records = vec![
        rec("t0", "a", "a", "a", "a"),
        rec("t1", "a", "b", "a", "b"),
        rec("t2", "c", "a", "c", "a"),
    ];
    let cat = TileCatalog::build(records).unwrap();
    let m1 = CompatibilityModel::build(&cat).unwrap();
    let m2 = CompatibilityModel::build(&cat).unwrap();
    assert_eq!(m1.tile_count(), m2.tile_count());
    for a in 0..3usize {
        for d in DIRS {
            assert_eq!(m1.compatible(a, d), m2.compatible(a, d));
            for b in 0..3usize {
                assert_eq!(m1.is_compatible(a, d, b), m2.is_compatible(a, d, b));
            }
        }
    }
}

#[test]
fn model_of_empty_catalog_is_empty() {
    let cat = TileCatalog::build(Vec::new()).unwrap();
    let m = CompatibilityModel::build(&cat).unwrap();
    assert_eq!(m.tile_count(), 0);
}
