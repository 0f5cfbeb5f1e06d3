use wfc::tiles::{Direction, SchemaError, TileCatalog, TileRecord};

fn rec(name: &str, n: &str, w: &str, s: &str, e: &str) -> TileRecord {
    TileRecord {
        name: name.to_string(),
        image: format!("{}.png", name),
        north: Some(n.to_string()),
        west: Some(w.to_string()),
        south: Some(s.to_string()),
        east: Some(e.to_string()),
    }
}

#[test]
fn catalog_builds_and_interns_labels() {
    let records = vec![
        rec("grass", "g", "g", "g", "g"),
        rec("road", "g", "r", "r", "g"),
    ];
    let cat = TileCatalog::build(records).unwrap();
    assert_eq!(cat.tile_count(), 2);
    // Vocabulary in first-occurrence order: "g" then "r".
    assert_eq!(cat.label_count(), 2);
    assert_eq!(cat.label_of(0), "g");
    assert_eq!(cat.label_of(1), "r");
    assert_eq!(cat.edge_label_id(0, Direction::North), 0);
    assert_eq!(cat.edge_label_id(0, Direction::East), 0);
    assert_eq!(cat.edge_label_id(1, Direction::North), 0);
    assert_eq!(cat.edge_label_id(1, Direction::West), 1);
    assert_eq!(cat.edge_label_id(1, Direction::South), 1);
    assert_eq!(cat.name_of(0), "grass");
    assert_eq!(cat.image_of(1), "road.png");
}

#[test]
fn catalog_rejects_missing_edge() {
    let mut r = rec("grass", "g", "g", "g", "g");
    r.south = None;
    let records = vec![rec("road", "a", "b", "c", "d"), r];
    let err = TileCatalog::build(records).unwrap_err();
    assert_eq!(err, SchemaError::MissingEdge { tile: 1, direction: Direction::South });
}

#[test]
fn catalog_rejects_duplicate_name() {
    let records = vec![
        rec("grass", "g", "g", "g", "g"),
        rec("road", "r", "r", "r", "r"),
        rec("grass", "x", "x", "x", "x"),
    ];
    let err = TileCatalog::build(records).unwrap_err();
    assert_eq!(err, SchemaError::DuplicateId { tile: 2 });
}

#[test]
fn catalog_reports_first_fault_in_scan_order() {
    // Record 0 is missing an edge and record 1 duplicates a name: the
    // missing edge of the earlier record wins.
    let mut r0 = rec("grass", "g", "g", "g", "g");
    r0.north = None;
    let records = vec![r0, rec("grass", "g", "g", "g", "g")];
    let err = TileCatalog::build(records).unwrap_err();
    assert_eq!(err, SchemaError::MissingEdge { tile: 0, direction: Direction::North });
}

#[test]
fn catalog_missing_edge_order_is_north_west_south_east() {
    let mut r0 = rec("t", "n", "w", "s", "e");
    r0.west = None;
    r0.east = None;
    let err = TileCatalog::build(vec![r0]).unwrap_err();
    assert_eq!(err, SchemaError::MissingEdge { tile: 0, direction: Direction::West });
}

#[test]
fn catalog_of_no_records_is_empty() {
    let cat = TileCatalog::build(Vec::new()).unwrap();
    assert_eq!(cat.tile_count(), 0);
    assert_eq!(cat.label_count(), 0);
}

#[test]
fn direction_opposites_pair_up() {
    assert_eq!(Direction::North.flip(), Direction::South);
    assert_eq!(Direction::South.flip(), Direction::North);
    assert_eq!(Direction::West.flip(), Direction::East);
    assert_eq!(Direction::East.flip(), Direction::West);
    for i in 0..4 {
        let d = Direction::from_index(i);
        assert_eq!(d.index(), i);
        assert_eq!(d.flip().flip(), d);
    }
}
