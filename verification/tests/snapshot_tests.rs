use tilepop::Grid;
use tilepop::MoveDir;
use tilepop::SnapshotError;
use tilepop::Tile;
use tilepop::VecGrid;

#[test]
fn to_ron_prints_the_canonical_document() {
    let mut g = Grid::new(1, 2, 5);
    assert!(g.set(0, 1, Tile::Regular(3)));
    let text = g.to_ron();
    let expected = "(\n    steps: 5,\n    height: 1,\n    width: 2,\n    rows: [\n        [Empty,Regular(3),],\n    ],\n)";
    assert_eq!(text, expected);
}

#[test]
fn round_trip_reproduces_the_grid() {
    let mut g = Grid::new(2, 3, 41);
    assert!(g.set(0, 0, Tile::Regular(7)));
    assert!(g.set(0, 2, Tile::Blocker));
    assert!(g.set(1, 1, Tile::Regular(9)));
    let text = g.to_ron();
    let loaded = Grid::from_ron(&text).unwrap();
    assert_eq!(loaded.get_steps(), 41);
    assert_eq!(loaded.get_height(), 2);
    assert_eq!(loaded.get_width(), 3);
    for y in 0..2 {
        for x in 0..3 {
            assert_eq!(loaded.get(y, x), g.get(y, x));
        }
    }
    // a loaded grid is freshly idle
    assert!(loaded.is_anim_completed());
    // and re-saving reproduces the identical document
    assert_eq!(loaded.to_ron(), text);
}

#[test]
fn animations_are_not_persisted() {
    let mut g = Grid::new(1, 2, 5);
    assert!(g.set(0, 1, Tile::Regular(1)));
    assert!(g.move_grid(MoveDir::Left, 0));
    assert!(!g.is_anim_completed());
    let loaded = Grid::from_ron(&g.to_ron()).unwrap();
    assert!(loaded.is_anim_completed());
    assert_eq!(loaded.get_steps(), 4);
    assert_eq!(loaded.get(0, 0), Some(Tile::Regular(1)));
}

#[test]
fn parser_accepts_whitespace_freely() {
    let text = "( steps: 2, height: 1, width: 1, rows: [ [ Blocker , ] , ] , )";
    let g = Grid::from_ron(text).unwrap();
    assert_eq!(g.get_steps(), 2);
    assert_eq!(g.get(0, 0), Some(Tile::Blocker));
}

#[test]
fn malformed_text_is_rejected() {
    assert_eq!(Grid::from_ron("").err(), Some(SnapshotError::Malformed));
    assert_eq!(Grid::from_ron("nonsense").err(), Some(SnapshotError::Malformed));
    assert_eq!(
        Grid::from_ron("(steps: 1, height: 1, width: 1, rows: [[Empty,],],").err(),
        Some(SnapshotError::Malformed)
    );
    // a color above the 32-bit range does not fit the grammar
    assert_eq!(
        Grid::from_ron("(steps: 1, height: 1, width: 1, rows: [[Regular(4294967296),],],)").err(),
        Some(SnapshotError::Malformed)
    );
    // trailing garbage after the document
    assert_eq!(
        Grid::from_ron("(steps: 1, height: 1, width: 1, rows: [[Empty,],],) extra").err(),
        Some(SnapshotError::Malformed)
    );
}

#[test]
fn dimension_mismatch_is_reported_not_trusted() {
    // one row declared two
    assert_eq!(
        Grid::from_ron("(steps: 1, height: 2, width: 1, rows: [[Empty,],],)").err(),
        Some(SnapshotError::DimensionMismatch)
    );
    // a short row
    assert_eq!(
        Grid::from_ron("(steps: 1, height: 1, width: 2, rows: [[Empty,],],)").err(),
        Some(SnapshotError::DimensionMismatch)
    );
}

#[test]
fn vec_grid_conversions_round_trip() {
    let mut g = Grid::new(2, 2, 3);
    assert!(g.set(0, 0, Tile::Regular(5)));
    let v = g.to_vec();
    assert_eq!(v.steps, 3);
    assert_eq!(v.height, 2);
    assert_eq!(v.width, 2);
    assert_eq!(v.data[0][0], Tile::Regular(5));
    assert_eq!(v.data[1][1], Tile::Empty);
    let back = Grid::from_vec(v).unwrap();
    assert_eq!(back.get(0, 0), Some(Tile::Regular(5)));
    assert_eq!(back.get_steps(), 3);
}

#[test]
fn inconsistent_vec_grid_is_rejected() {
    let v = VecGrid { steps: 1, data: vec![vec![Tile::Empty]], height: 2, width: 1 };
    assert_eq!(Grid::from_vec(v).err(), Some(SnapshotError::DimensionMismatch));
    let w = VecGrid { steps: 1, data: vec![vec![Tile::Empty], vec![]], height: 2, width: 1 };
    assert_eq!(Grid::from_vec(w).err(), Some(SnapshotError::DimensionMismatch));
}

#[test]
fn degenerate_axis_beyond_isize_is_rejected() {
    // a zero axis does not excuse the other one: such a shape cannot be
    // indexed and must come back as an error, not abort
    let v = VecGrid { steps: 0, data: vec![], height: 0, width: usize::MAX };
    assert_eq!(Grid::from_vec(v).err(), Some(SnapshotError::DimensionMismatch));
    let w = VecGrid { steps: 0, data: Vec::new(), height: usize::MAX, width: 0 };
    assert_eq!(Grid::from_vec(w).err(), Some(SnapshotError::DimensionMismatch));
    let text = format!("(steps: 0, height: 0, width: {}, rows: [],)", usize::MAX);
    assert_eq!(Grid::from_ron(&text).err(), Some(SnapshotError::DimensionMismatch));
}

#[test]
fn empty_grid_document_round_trips() {
    let g = Grid::new(0, 0, 0);
    let text = g.to_ron();
    let loaded = Grid::from_ron(&text).unwrap();
    assert_eq!(loaded.get_height(), 0);
    assert_eq!(loaded.get_width(), 0);
    assert_eq!(loaded.to_ron(), text);
}
