//! Star charts: boolean-like tiles on a grid, with helpers that find
//! the fully empty lines (the ones cosmic expansion doubles) and the
//! positions of all galaxies.

use vstd::prelude::*;

use crate::grid::{lemma_row_major_decode, spec_pos_of_index, Grid, Position};

verus! {

/// One chart cell: a galaxy or empty space.
#[derive(Debug, Clone, Copy, PartialEq, Eq, Structural)]
pub enum Tile {
    Galaxy,
    Empty,
}

/// Every tile of the line is empty space.
pub open spec fn line_empty(line: Seq<Tile>) -> bool {
    forall|i: int| 0 <= i < line.len() ==> line[i] == Tile::Empty
}

/// The indices among the first `k` lines whose every tile is empty, in
/// ascending order.
pub open spec fn spec_empty_indices(lines: Seq<Vec<Tile>>, k: int) -> Seq<usize>
    decreases k,
{
    if k <= 0 {
        Seq::empty()
    } else {
        let rest = spec_empty_indices(lines, k - 1);
        if line_empty(lines[k - 1]@) {
            rest.push((k - 1) as usize)
        } else {
            rest
        }
    }
}

/// Whether the line holds only empty space.
fn all_empty(line: &Vec<Tile>) -> (r: bool)
    ensures
        r == line_empty(line@),
{
    let mut j: usize = 0;
    while j < line.len()
        invariant
            j <= line@.len(),
            forall|i: int| 0 <= i < j ==> line@[i] == Tile::Empty,
        decreases line@.len() - j,
    {
        if line[j] != Tile::Empty {
            proof {
                assert(line@[j as int] != Tile::Empty);
            }
            return false;
        }
        j = j + 1;
    }
    true
}

/// The indices of the lines that hold only empty space, in ascending
/// order.
pub fn empty_indices(lines: &Vec<Vec<Tile>>) -> (r: Vec<usize>)
    ensures
        r@ == spec_empty_indices(lines@, lines@.len() as int),
{
    let mut indices: Vec<usize> = Vec::new();
    let mut index: usize = 0;
    while index < lines.len()
        invariant
            index <= lines@.len(),
            indices@ == spec_empty_indices(lines@, index as int),
        decreases lines@.len() - index,
    {
        if all_empty(&lines[index]) {
            indices.push(index);
        }
        index = index + 1;
    }
    indices
}

/// The positions of the first `k` cells (in row-major order) that hold
/// a galaxy.
pub open spec fn spec_galaxy_positions(g: Grid<Tile>, k: int) -> Seq<Position>
    decreases k,
{
    if k <= 0 {
        Seq::empty()
    } else {
        let rest = spec_galaxy_positions(g, k - 1);
        let p = spec_pos_of_index(g.spec_size(), k - 1);
        if g.cell(p) == Tile::Galaxy {
            rest.push(p)
        } else {
            rest
        }
    }
}

/// The positions of every galaxy on the chart, in row-major order.
pub fn galaxy_positions(grid: Grid<Tile>) -> (r: Vec<Position>)
    requires
        grid.wf(),
    ensures
        r@ == spec_galaxy_positions(grid, grid.spec_size().0 * grid.spec_size().1),
{
    let size = grid.size();
    let count = size.0 * size.1;
    let mut vec: Vec<Position> = Vec::new();
    let mut k: usize = 0;
    while k < count
        invariant
            grid.wf(),
            size == grid.spec_size(),
            count == size.0 * size.1,
            k <= count,
            vec@ == spec_galaxy_positions(grid, k as int),
        decreases count - k,
    {
        proof {
            lemma_row_major_decode(k as int, size.0 as int, size.1 as int);
        }
        let pos = Position(k % size.0, k / size.0);
        proof {
            assert(pos == spec_pos_of_index(size, k as int));
            assert(pos.spec_within(size));
        }
        let tile = match grid.get(pos) {
            Some(t) => *t,
            None => {
                proof {
                    assert(false);
                }
                Tile::Empty
            },
        };
        if tile == Tile::Galaxy {
            vec.push(pos);
        }
        k = k + 1;
    }
    vec
}

} // verus!
