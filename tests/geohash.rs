use zpath::{encode, get_adjacent_cell, get_surrounding_cells, Direction, GeoError};

fn e7(deg: f64) -> i64 {
    (deg * 1e7).round() as i64
}

#[test]
fn encode_san_francisco() {
    let g = encode(e7(37.7749), e7(-122.4194), 8).unwrap();
    assert_eq!(g, "9q8yyk8y");
}

#[test]
fn encode_is_idempotent() {
    let a = encode(377_749_000, -1_224_194_000, 8).unwrap();
    let b = encode(377_749_000, -1_224_194_000, 8).unwrap();
    assert_eq!(a, b);
}

#[test]
fn encode_extremes_and_origin() {
    assert_eq!(encode(0, 0, 8).unwrap(), "7zzzzzzz");
    assert_eq!(encode(900_000_000, 1_800_000_000, 8).unwrap(), "zzzzzzzz");
    assert_eq!(encode(-900_000_000, -1_800_000_000, 8).unwrap(), "00000000");
}

#[test]
fn encode_precision_prefixes() {
    assert_eq!(encode(377_749_000, -1_224_194_000, 0).unwrap(), "");
    assert_eq!(encode(377_749_000, -1_224_194_000, 3).unwrap(), "9q8");
}

#[test]
fn encode_rejects_out_of_range() {
    assert_eq!(encode(900_000_001, 0, 8), Err(GeoError::InvalidCoordinate));
    assert_eq!(encode(0, -1_800_000_001, 8), Err(GeoError::InvalidCoordinate));
}

#[test]
fn adjacent_cells_of_known_key() {
    assert_eq!(get_adjacent_cell("u4pruydq", Direction::North), "u4pruydr");
    assert_eq!(get_adjacent_cell("u4pruydq", Direction::East), "u4pruydw");
    assert_eq!(get_adjacent_cell("u4pruydq", Direction::South), "u4pruydm");
    assert_eq!(get_adjacent_cell("u4pruydq", Direction::West), "u4pruydn");
}

#[test]
fn adjacent_cell_crossing_parent_border() {
    assert_eq!(get_adjacent_cell("9q8yyk8y", Direction::East), "9q8yyk9n");
    assert_eq!(get_adjacent_cell("ezs42", Direction::West), "ezefr");
}

#[test]
fn adjacent_cell_top_level_and_empty() {
    assert_eq!(get_adjacent_cell("s", Direction::North), "u");
    assert_eq!(get_adjacent_cell("s", Direction::West), "e");
    assert_eq!(get_adjacent_cell("", Direction::North), "");
}

#[test]
fn adjacent_round_trip() {
    for g in ["u4pruydq", "9q8yyk8y", "ezs42", "s", "zzzzzzzz", "00000000"] {
        for (d, o) in [
            (Direction::North, Direction::South),
            (Direction::South, Direction::North),
            (Direction::East, Direction::West),
            (Direction::West, Direction::East),
        ] {
            let there = get_adjacent_cell(g, d);
            assert_eq!(get_adjacent_cell(&there, o), g);
        }
    }
}

#[test]
fn surrounding_cells_of_known_key() {
    let cells = get_surrounding_cells("u4pruydq");
    assert_eq!(
        cells,
        vec![
            "u4pruydx", "u4pruydp", "u4pruydr", "u4pruydw", "u4pruydt", "u4pruydj", "u4pruydm",
            "u4pruydn"
        ]
    );
}

#[test]
fn surrounding_cells_are_eight_distinct_neighbours() {
    for g in ["u4pruydq", "9q8yyk8y", "ezs42", "s", "zz"] {
        let cells = get_surrounding_cells(g);
        assert_eq!(cells.len(), 8);
        for (i, c) in cells.iter().enumerate() {
            assert_eq!(c.len(), g.len());
            assert_ne!(c, g);
            for d in &cells[i + 1..] {
                assert_ne!(c, d);
            }
        }
    }
}
