use std::cmp::Reverse;
use std::collections::BinaryHeap;

use gridpath::grid::{Grid, Position};
use gridpath::solver::{solve, SolveError};

/// Parses rows of single digits into a cost grid.
fn digit_grid(rows: &[&str]) -> Grid<u32> {
    let width = rows[0].len();
    let mut cells = Vec::new();
    for row in rows {
        assert_eq!(row.len(), width);
        for b in row.bytes() {
            assert!(b.is_ascii_digit());
            cells.push((b - b'0') as u32);
        }
    }
    Grid::with_vec(cells, width).unwrap()
}

/// An independent reference: priority-queue (Dijkstra) search over the
/// same state graph of (position, direction, run).
fn dijkstra_reference(
    grid: &Grid<u32>,
    origin: Position,
    destination: Position,
    min_run: usize,
    max_run: usize,
) -> Option<u64> {
    if origin == destination {
        return Some(0);
    }
    let size = grid.size();
    let (w, h) = (size.0, size.1);
    let runs = max_run + 1;
    let idx = |x: usize, y: usize, d: usize, r: usize| ((y * w + x) * 4 + d) * runs + r;
    let deltas: [(isize, isize); 4] = [(-1, 0), (1, 0), (0, -1), (0, 1)];
    let mut dist: Vec<Option<u64>> = vec![None; w * h * 4 * runs];
    let mut heap: BinaryHeap<Reverse<(u64, usize)>> = BinaryHeap::new();
    for d in 0..4 {
        dist[idx(origin.0, origin.1, d, 0)] = Some(0);
        heap.push(Reverse((0, idx(origin.0, origin.1, d, 0))));
    }
    while let Some(Reverse((cost, i))) = heap.pop() {
        if dist[i] != Some(cost) {
            continue;
        }
        let r = i % runs;
        let d = (i / runs) % 4;
        let x = (i / runs / 4) % w;
        let y = i / runs / 4 / w;
        let mut push = |x2: usize, y2: usize, d2: usize, r2: usize, heap: &mut BinaryHeap<_>| {
            let c2 = cost + *grid.get(Position(x2, y2)).unwrap() as u64;
            let j = idx(x2, y2, d2, r2);
            if dist[j].map_or(true, |old| c2 < old) {
                dist[j] = Some(c2);
                heap.push(Reverse((c2, j)));
            }
        };
        for d2 in 0..4 {
            let straight = d2 == d;
            let turn = (d2 < 2) != (d < 2);
            if straight && r >= max_run {
                continue;
            }
            if turn && !(r == 0 || r >= min_run) {
                continue;
            }
            if !straight && !turn {
                continue;
            }
            let nx = x as isize + deltas[d2].0;
            let ny = y as isize + deltas[d2].1;
            if nx < 0 || ny < 0 || nx as usize >= w || ny as usize >= h {
                continue;
            }
            let r2 = if straight { r + 1 } else { 1 };
            push(nx as usize, ny as usize, d2, r2, &mut heap);
        }
    }
    let mut best: Option<u64> = None;
    for d in 0..4 {
        for r in min_run..=max_run {
            if let Some(v) = dist[idx(destination.0, destination.1, d, r)] {
                if best.map_or(true, |b| v < b) {
                    best = Some(v);
                }
            }
        }
    }
    best
}

fn classic_grid() -> Grid<u32> {
    digit_grid(&[
        "2413432311323",
        "3215453535623",
        "3255245654254",
        "3446585845452",
        "4546657867536",
        "1438598798454",
        "4457876987766",
        "3637877979653",
        "4654967986887",
        "4564679986453",
        "1224686865563",
        "2546548887735",
        "4322674655533",
    ])
}

#[test]
fn classic_example_loose_runs() {
    let grid = classic_grid();
    let r = solve(&grid, Position(0, 0), Position(12, 12), 1, 3);
    assert_eq!(r, Ok(Some(102)));
}

#[test]
fn classic_example_long_runs() {
    let grid = classic_grid();
    let r = solve(&grid, Position(0, 0), Position(12, 12), 4, 10);
    assert_eq!(r, Ok(Some(94)));
}

#[test]
fn single_cell_grid_costs_nothing() {
    let grid = digit_grid(&["7"]);
    let r = solve(&grid, Position(0, 0), Position(0, 0), 1, 3);
    assert_eq!(r, Ok(Some(0)));
}

#[test]
fn detached_destination_is_unreachable() {
    // One row, twelve columns: eleven steps in a row are needed, but at
    // most ten may be taken and no turn can re-enter the row.
    let grid = digit_grid(&["111111111111"]);
    let r = solve(&grid, Position(0, 0), Position(11, 0), 4, 10);
    assert_eq!(r, Ok(None));
}

#[test]
fn runs_longer_than_max_are_refused() {
    // A straight line of four steps would cost 4; with runs capped at
    // three and no second row to detour through, there is no path at all.
    let grid = digit_grid(&["11111"]);
    let r = solve(&grid, Position(0, 0), Position(4, 0), 1, 3);
    assert_eq!(r, Ok(None));
}

#[test]
fn detour_replaces_overlong_run() {
    // Two rows: the straight run of four is refused, but a detour through
    // the second row keeps every run at three or less.
    let grid = digit_grid(&["11111", "99199"]);
    let straight_line_sum = 4;
    let r = solve(&grid, Position(0, 0), Position(4, 0), 1, 3).unwrap().unwrap();
    assert!(r > straight_line_sum);
    assert_eq!(r, dijkstra_reference(&grid, Position(0, 0), Position(4, 0), 1, 3).unwrap());
}

#[test]
fn solving_twice_gives_the_same_answer() {
    let grid = classic_grid();
    let first = solve(&grid, Position(0, 0), Position(12, 12), 4, 10);
    let second = solve(&grid, Position(0, 0), Position(12, 12), 4, 10);
    assert_eq!(first, second);
}

#[test]
fn raising_a_cell_never_lowers_the_answer() {
    let rows = ["241343", "321545", "325524", "344658", "454665", "143859"];
    let base = digit_grid(&rows);
    let origin = Position(0, 0);
    let destination = Position(5, 5);
    let before = solve(&base, origin, destination, 1, 3).unwrap().unwrap();
    for y in 0..6 {
        for x in 0..6 {
            let mut raised = digit_grid(&rows);
            let old = *raised.get(Position(x, y)).unwrap();
            raised.set(Position(x, y), old + 9).unwrap();
            let after = solve(&raised, origin, destination, 1, 3).unwrap().unwrap();
            assert!(after >= before, "raising ({x},{y}) lowered {before} to {after}");
        }
    }
}

#[test]
fn matches_dijkstra_on_assorted_grids() {
    let grids = [
        vec!["11", "11"],
        vec!["19", "91"],
        vec!["123", "456", "789"],
        vec!["90909", "09090", "90909"],
        vec!["2413", "3215", "3255", "3446"],
        vec!["111111", "999991", "111111", "199999", "111111"],
    ];
    for rows in grids {
        let grid = digit_grid(&rows);
        let size = grid.size();
        let destination = Position(size.0 - 1, size.1 - 1);
        for (min_run, max_run) in [(1, 1), (1, 2), (1, 3), (2, 3), (4, 10)] {
            let got = solve(&grid, Position(0, 0), destination, min_run, max_run).unwrap();
            let want = dijkstra_reference(&grid, Position(0, 0), destination, min_run, max_run);
            assert_eq!(got, want, "rows {rows:?} runs {min_run}..{max_run}");
        }
    }
}

#[test]
fn oversized_state_space_is_refused() {
    let grid = digit_grid(&["12", "34"]);
    let r = solve(&grid, Position(0, 0), Position(1, 1), 1, usize::MAX - 1);
    assert_eq!(r, Err(SolveError::CostOverflow));
}

#[test]
fn zero_cost_cells_are_allowed() {
    let grid = digit_grid(&["000", "000", "000"]);
    let r = solve(&grid, Position(0, 0), Position(2, 2), 1, 3);
    assert_eq!(r, Ok(Some(0)));
}
