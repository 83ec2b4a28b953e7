use gridpath::grid::{Grid, Position};
use gridpath::mirrors::{reflect_horizontally, reflect_usize, reflect_vertically};

fn pattern(rows: &[&str]) -> Grid<bool> {
    let width = rows[0].len();
    let mut cells = Vec::new();
    for row in rows {
        assert_eq!(row.len(), width);
        for b in row.bytes() {
            cells.push(b == b'#');
        }
    }
    Grid::with_vec(cells, width).unwrap()
}

#[test]
fn reflect_usize_mirrors_across_the_line() {
    assert_eq!(reflect_usize(0, 1), Some(1));
    assert_eq!(reflect_usize(1, 1), Some(0));
    assert_eq!(reflect_usize(0, 3), Some(5));
    assert_eq!(reflect_usize(3, 2), Some(0));
    assert_eq!(reflect_usize(5, 2), None);
}

#[test]
fn reflect_positions_keep_the_other_axis() {
    assert_eq!(
        reflect_horizontally(&Position(1, 7), 3),
        Some(Position(4, 7))
    );
    assert_eq!(reflect_horizontally(&Position(9, 7), 3), None);
    assert_eq!(reflect_vertically(&Position(7, 1), 3), Some(Position(7, 4)));
    assert_eq!(reflect_vertically(&Position(7, 9), 3), None);
}

#[test]
fn smudged_column_reflection_is_found_as_rows() {
    let g = pattern(&[
        "#.##..##.",
        "..#.##.#.",
        "##......#",
        "##......#",
        "..#.##.#.",
        "..##..##.",
        "#.#.##.#.",
    ]);
    assert_eq!(g.solve(), 300);
}

#[test]
fn smudged_row_reflection_is_found() {
    let g = pattern(&[
        "#...##..#",
        "#....#..#",
        "..##..###",
        "#####.##.",
        "#####.##.",
        "..##..###",
        "#....#..#",
    ]);
    assert_eq!(g.solve(), 100);
}

#[test]
fn a_grid_without_a_smudged_line_reports_zero() {
    let g = pattern(&["##", "##"]);
    assert_eq!(g.solve(), 0);
}
