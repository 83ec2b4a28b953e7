use gridpath::grid::{Grid, Position};

#[test]
fn within_checks_both_axes() {
    assert!(Position(0, 0).within(Position(1, 1)));
    assert!(Position(2, 3).within(Position(5, 4)));
    assert!(!Position(5, 3).within(Position(5, 4)));
    assert!(!Position(2, 4).within(Position(5, 4)));
    assert!(!Position(0, 0).within(Position(0, 5)));
}

#[test]
fn distance_is_taxicab() {
    assert_eq!(Position::distance(Position(0, 0), Position(3, 4)), 7);
    assert_eq!(Position::distance(Position(3, 4), Position(0, 0)), 7);
    assert_eq!(Position::distance(Position(2, 2), Position(2, 2)), 0);
    assert_eq!(Position::distance(Position(10, 1), Position(4, 9)), 14);
}

#[test]
fn with_vec_accepts_whole_rows_only() {
    let g = Grid::with_vec(vec![1u32, 2, 3, 4, 5, 6], 3).unwrap();
    assert_eq!(g.size(), Position(3, 2));
    assert_eq!(g.get(Position(0, 0)), Some(&1));
    assert_eq!(g.get(Position(2, 1)), Some(&6));
    assert!(Grid::with_vec(vec![1u32, 2, 3, 4, 5], 3).is_none());
    assert!(Grid::with_vec(vec![1u32, 2, 3], 0).is_none());
}

#[test]
fn with_vec_empty_is_zero_rows() {
    let g = Grid::<u32>::with_vec(vec![], 4).unwrap();
    assert_eq!(g.size(), Position(4, 0));
    assert!(g.get(Position(0, 0)).is_none());
}

#[test]
fn get_reports_out_of_bounds_as_none() {
    let g = Grid::with_vec(vec![7u32, 8, 9, 10], 2).unwrap();
    assert!(g.get(Position(2, 0)).is_none());
    assert!(g.get(Position(0, 2)).is_none());
    assert_eq!(g.get(Position(1, 1)), Some(&10));
}

#[test]
fn set_replaces_cell_or_reports_error() {
    let mut g = Grid::with_vec(vec![0u32; 6], 3).unwrap();
    assert!(g.set(Position(2, 1), 42).is_ok());
    assert_eq!(g.get(Position(2, 1)), Some(&42));
    let err = g.set(Position(3, 0), 1).unwrap_err();
    assert_eq!(err.access, Position(3, 0));
    assert_eq!(err.size, Position(3, 2));
    assert_eq!(g.get(Position(2, 1)), Some(&42));
}

#[test]
fn with_builds_from_function() {
    let g: Grid<usize> = Grid::with(Position(3, 2), |p: Position| p.0 + 10 * p.1);
    assert_eq!(g.size(), Position(3, 2));
    assert_eq!(g.get(Position(0, 0)), Some(&0));
    assert_eq!(g.get(Position(2, 0)), Some(&2));
    assert_eq!(g.get(Position(0, 1)), Some(&10));
    assert_eq!(g.get(Position(2, 1)), Some(&12));
}

#[test]
fn positions_walks_row_major_and_ends() {
    let mut it = Position(2, 2).positions();
    assert_eq!(it.next(), Some(Position(0, 0)));
    assert_eq!(it.next(), Some(Position(1, 0)));
    assert_eq!(it.next(), Some(Position(0, 1)));
    assert_eq!(it.next(), Some(Position(1, 1)));
    assert_eq!(it.next(), None);
    assert_eq!(it.next(), None);
}

#[test]
fn positions_restarts_identically() {
    let first: Vec<Position> = {
        let mut it = Position(3, 2).positions();
        let mut v = vec![];
        while let Some(p) = it.next() {
            v.push(p);
        }
        v
    };
    let second: Vec<Position> = {
        let mut it = Position(3, 2).positions();
        let mut v = vec![];
        while let Some(p) = it.next() {
            v.push(p);
        }
        v
    };
    assert_eq!(first, second);
    assert_eq!(first.len(), 6);
}

#[test]
fn cells_exposes_row_major_contents() {
    let g = Grid::with_vec(vec![5u32, 6, 7, 8], 2).unwrap();
    assert_eq!(g.cells().as_slice(), &[5, 6, 7, 8]);
}
