use gridpath::calibration::{
    digit_backward, digit_forward, integer_from_line_slice, search_digit_backward,
    search_digit_forward,
};
use gridpath::nodes::{char_to_index, node_string_to_index};
use gridpath::pipes::{PipeCell, Position as PipePosition, Vector};
use gridpath::ranges::{move_range, range_by_size, RangeMap, RangeMapped, Remapper};
use gridpath::cubes::Color;
use gridpath::galaxies::{empty_indices, galaxy_positions, Tile};
use gridpath::grid::{Grid, Position as GridPosition};
use gridpath::hands::{Card, Row, RowType};
use gridpath::lens::Index;
use gridpath::lookup::RangeMap as LookupRangeMap;
use gridpath::pipes::FloodFillIndex;
use gridpath::schematic::position_inside;
use gridpath::solver::min_changed;

#[test]
fn digit_forward_reads_words_and_digits() {
    assert_eq!(digit_forward(b"one23"), Some(1));
    assert_eq!(digit_forward(b"two1nine"), Some(2));
    assert_eq!(digit_forward(b"threeX"), Some(3));
    assert_eq!(digit_forward(b"four"), Some(4));
    assert_eq!(digit_forward(b"five"), Some(5));
    assert_eq!(digit_forward(b"six"), Some(6));
    assert_eq!(digit_forward(b"seven"), Some(7));
    assert_eq!(digit_forward(b"eight"), Some(8));
    assert_eq!(digit_forward(b"nine"), Some(9));
    assert_eq!(digit_forward(b"7abc"), Some(7));
    assert_eq!(digit_forward(b"abc7"), None);
    assert_eq!(digit_forward(b"on"), None);
    assert_eq!(digit_forward(b"0"), None);
}

#[test]
fn digit_backward_reads_suffixes() {
    assert_eq!(digit_backward(b"abcone"), Some(1));
    assert_eq!(digit_backward(b"xxtwo"), Some(2));
    assert_eq!(digit_backward(b"3"), Some(3));
    assert_eq!(digit_backward(b"eightwo"), Some(2));
    assert_eq!(digit_backward(b"one2"), Some(2));
    assert_eq!(digit_backward(b"oneX"), None);
}

#[test]
fn search_finds_first_and_last() {
    assert_eq!(search_digit_forward(b"two1nine"), 2);
    assert_eq!(search_digit_backward(b"two1nine"), 9);
    assert_eq!(search_digit_forward(b"eightwothree"), 8);
    assert_eq!(search_digit_backward(b"eightwothree"), 3);
    assert_eq!(search_digit_forward(b"xtwone3four"), 2);
    assert_eq!(search_digit_backward(b"xtwone3four"), 4);
    assert_eq!(search_digit_forward(b"zoneight234"), 1);
    assert_eq!(search_digit_backward(b"zoneight234"), 4);
}

#[test]
fn calibration_values_match_known_lines() {
    assert_eq!(integer_from_line_slice(b"two1nine"), 29);
    assert_eq!(integer_from_line_slice(b"eightwothree"), 83);
    assert_eq!(integer_from_line_slice(b"abcone2threexyz"), 13);
    assert_eq!(integer_from_line_slice(b"4nineeightseven2"), 42);
    assert_eq!(integer_from_line_slice(b"7pqrstsixteen"), 76);
    assert_eq!(integer_from_line_slice(b"treb7uchet"), 77);
}

#[test]
fn char_index_covers_capitals_only() {
    assert_eq!(char_to_index('A'), Some(0));
    assert_eq!(char_to_index('Z'), Some(25));
    assert_eq!(char_to_index('M'), Some(12));
    assert_eq!(char_to_index('a'), None);
    assert_eq!(char_to_index('@'), None);
    assert_eq!(char_to_index('['), None);
}

#[test]
fn node_indices_are_base26() {
    assert_eq!(node_string_to_index("AAA"), Some(0));
    assert_eq!(node_string_to_index("AAB"), Some(1));
    assert_eq!(node_string_to_index("ABA"), Some(26));
    assert_eq!(node_string_to_index("ZZZ"), Some(26 * 26 * 26 - 1));
    assert_eq!(node_string_to_index("AA"), None);
    assert_eq!(node_string_to_index("AAAA"), None);
    assert_eq!(node_string_to_index("AaA"), None);
}

#[test]
fn pipe_connections_name_both_ends() {
    assert_eq!(PipeCell::Ground.connections(), None);
    assert_eq!(PipeCell::Start.connections(), None);
    assert_eq!(
        PipeCell::Horizontal.connections(),
        Some((Vector(-1, 0), Vector(1, 0)))
    );
    assert_eq!(
        PipeCell::NorthWest.connections(),
        Some((Vector(0, -1), Vector(-1, 0)))
    );
}

#[test]
fn pipe_other_connection_swaps_ends() {
    assert_eq!(
        PipeCell::Vertical.other_connection(Vector(0, -1)),
        Some(Vector(0, 1))
    );
    assert_eq!(
        PipeCell::Vertical.other_connection(Vector(0, 1)),
        Some(Vector(0, -1))
    );
    assert_eq!(PipeCell::Vertical.other_connection(Vector(1, 0)), None);
    assert_eq!(PipeCell::Ground.other_connection(Vector(1, 0)), None);
}

#[test]
fn pipe_position_checked_add() {
    let p = PipePosition(3, 0);
    assert_eq!(p.checked_add(Vector(-1, 0)), Some(PipePosition(2, 0)));
    assert_eq!(p.checked_add(Vector(0, -1)), None);
    assert_eq!(p.checked_add(Vector(2, 5)), Some(PipePosition(5, 5)));
}

#[test]
fn range_helpers_shift_and_build() {
    let r = range_by_size(10, 5);
    assert_eq!((r.start, r.end), (10, 15));
    let m = move_range(&r, -3);
    assert_eq!((m.start, m.end), (7, 12));
}

#[test]
fn range_map_split_cuts_strictly_inside() {
    let rm = RangeMap { range: 10..20, offset: 100 };
    let (a, b) = rm.split(15).unwrap();
    assert_eq!((a.range.start, a.range.end, a.offset), (10, 15, 100));
    assert_eq!((b.range.start, b.range.end, b.offset), (15, 20, 100));
    assert!(rm.split(10).is_none());
    assert!(rm.split(20).is_none());
    assert!(rm.split(25).is_none());
}

#[test]
fn range_map_split_range_shapes() {
    let rm = RangeMap { range: 10..20, offset: 0 };
    match rm.split_range(&(0..30)) {
        RangeMapped::Inner(a, m, b) => {
            assert_eq!((a.start, a.end), (0, 10));
            assert_eq!((m.start, m.end), (10, 20));
            assert_eq!((b.start, b.end), (20, 30));
        }
        _ => panic!("expected an inner cut"),
    }
    match rm.split_range(&(0..15)) {
        RangeMapped::Right(a, m) => {
            assert_eq!((a.start, a.end), (0, 10));
            assert_eq!((m.start, m.end), (10, 15));
        }
        _ => panic!("expected a right cut"),
    }
    match rm.split_range(&(15..30)) {
        RangeMapped::Left(m, b) => {
            assert_eq!((m.start, m.end), (15, 20));
            assert_eq!((b.start, b.end), (20, 30));
        }
        _ => panic!("expected a left cut"),
    }
    match rm.split_range(&(12..18)) {
        RangeMapped::Full(m) => assert_eq!((m.start, m.end), (12, 18)),
        _ => panic!("expected full coverage"),
    }
    match rm.split_range(&(20..30)) {
        RangeMapped::Outside(n) => assert_eq!((n.start, n.end), (20, 30)),
        _ => panic!("expected no overlap"),
    }
}

#[test]
fn range_map_map_range_moves_covered_middle() {
    let rm = RangeMap { range: 0..10, offset: 100 };
    match rm.map_range(&(10..20)) {
        RangeMapped::Outside(n) => assert_eq!((n.start, n.end), (10, 20)),
        _ => panic!("expected no overlap"),
    }
    match rm.map_range(&(5..15)) {
        RangeMapped::Left(m, b) => {
            assert_eq!((m.start, m.end), (105, 110));
            assert_eq!((b.start, b.end), (10, 15));
        }
        _ => panic!("expected a left cut"),
    }
    match rm.map_range(&(2..8)) {
        RangeMapped::Full(m) => assert_eq!((m.start, m.end), (102, 108)),
        _ => panic!("expected full coverage"),
    }
}

#[test]
fn lens_hash_matches_published_values() {
    let label = |s: &str| Index { raw: String::from(s) };
    assert_eq!(label("HASH").hash(), 52);
    assert_eq!(label("rn").hash(), 0);
    assert_eq!(label("qp").hash(), 1);
    assert_eq!(label("cm").hash(), 0);
    assert_eq!(label("pc").hash(), 3);
    assert_eq!(label("").hash(), 0);
}

#[test]
fn lookup_map_shifts_covered_sources_only() {
    let rm = LookupRangeMap { source: 98, destination: 50, size: 2 };
    assert_eq!(rm.map(98), Some(50));
    assert_eq!(rm.map(99), Some(51));
    assert_eq!(rm.map(97), None);
    assert_eq!(rm.map(100), None);
    let sr = rm.source_range();
    assert_eq!((sr.start, sr.end), (98, 100));
    let rm2 = LookupRangeMap { source: 50, destination: 52, size: 48 };
    assert_eq!(rm2.map(79), Some(81));
}

#[test]
fn hand_types_follow_the_multiset_shape() {
    let hand = |cards: [Card; 5]| Row { cards }.row_type();
    let a = Card::A;
    assert_eq!(hand([a, a, a, a, a]), RowType::FiveOfAKind);
    assert_eq!(hand([a, a, Card::Eight, a, a]), RowType::FourOfAKind);
    assert_eq!(
        hand([Card::Two, Card::Three, Card::Three, Card::Three, Card::Two]),
        RowType::FullHouse
    );
    assert_eq!(
        hand([Card::T, Card::T, Card::T, Card::Nine, Card::Eight]),
        RowType::ThreeOfAKind
    );
    assert_eq!(
        hand([Card::Two, Card::Three, Card::Four, Card::Three, Card::Two]),
        RowType::TwoPair
    );
    assert_eq!(hand([a, Card::Two, Card::Three, a, Card::Four]), RowType::OnePair);
    assert_eq!(
        hand([Card::Two, Card::Three, Card::Four, Card::Five, Card::Six]),
        RowType::HighCard
    );
}

#[test]
fn schematic_bounds_check_is_signed() {
    assert!(position_inside(0, 0));
    assert!(position_inside(139, 139));
    assert!(!position_inside(-1, 0));
    assert!(!position_inside(0, -1));
    assert!(!position_inside(140, 0));
    assert!(!position_inside(0, 140));
}

#[test]
fn bag_limits_by_colour() {
    assert_eq!(Color::Red.max_in_bag(), 12);
    assert_eq!(Color::Green.max_in_bag(), 13);
    assert_eq!(Color::Blue.max_in_bag(), 14);
}

#[test]
fn flood_fill_invert_swaps_sides() {
    assert_eq!(FloodFillIndex::Left.invert(), FloodFillIndex::Right);
    assert_eq!(FloodFillIndex::Right.invert(), FloodFillIndex::Left);
    assert_eq!(FloodFillIndex::Border.invert(), FloodFillIndex::Border);
    assert_eq!(FloodFillIndex::Unmarked.invert(), FloodFillIndex::Unmarked);
}

#[test]
fn empty_indices_finds_blank_lines() {
    let g = Tile::Galaxy;
    let e = Tile::Empty;
    let lines = vec![
        vec![e, g, e],
        vec![e, e, e],
        vec![e, e, e],
        vec![g, e, e],
        vec![],
    ];
    assert_eq!(empty_indices(&lines), vec![1, 2, 4]);
}

#[test]
fn galaxy_positions_walks_row_major() {
    let g = Tile::Galaxy;
    let e = Tile::Empty;
    let chart = Grid::with_vec(vec![e, g, e, g, e, g], 3).unwrap();
    assert_eq!(
        galaxy_positions(chart),
        vec![GridPosition(1, 0), GridPosition(0, 1), GridPosition(2, 1)]
    );
}

#[test]
fn remapper_shifts_covered_parts_and_keeps_the_rest() {
    let remapper = Remapper {
        range_maps: vec![
            RangeMap { range: 98..100, offset: -48 },
            RangeMap { range: 50..98, offset: 2 },
        ],
    };
    let shifted: Vec<(i64, i64)> = remapper
        .map_range(79..93)
        .iter()
        .map(|r| (r.start, r.end))
        .collect();
    assert_eq!(shifted, vec![(81, 95)]);
    let cut: Vec<(i64, i64)> = remapper
        .map_range(40..120)
        .iter()
        .map(|r| (r.start, r.end))
        .collect();
    assert_eq!(cut, vec![(50, 52), (52, 100), (40, 50), (100, 120)]);
}

#[test]
fn min_changed_lowers_or_fills() {
    let mut slot: Option<u64> = None;
    assert!(min_changed(&mut slot, 10));
    assert_eq!(slot, Some(10));
    assert!(!min_changed(&mut slot, 10));
    assert_eq!(slot, Some(10));
    assert!(!min_changed(&mut slot, 11));
    assert_eq!(slot, Some(10));
    assert!(min_changed(&mut slot, 3));
    assert_eq!(slot, Some(3));
}
