//! Pipe cells: grid tiles that connect two of their four neighbours.
//!
//! A tile is read as a pair of unit displacements (its two open ends);
//! walking a pipe means entering through one end and leaving through the
//! other.

use vstd::prelude::*;

verus! {

/// A two-dimensional unit displacement between neighbouring cells.
#[derive(Debug, PartialEq, Eq, Clone, Copy, Structural)]
pub struct Vector(pub i32, pub i32);

/// A pair of non-negative coordinates `(column, row)`.
#[derive(Debug, PartialEq, Eq, Clone, Copy, Structural)]
pub struct Position(pub usize, pub usize);

impl Position {
    /// Displaces the position by `v`, or `None` when the result leaves
    /// the non-negative quadrant.
    pub fn checked_add(&self, v: Vector) -> (r: Option<Position>)
        requires
            self.0 + v.0 <= i32::MAX,
            self.1 + v.1 <= i32::MAX,
            self.0 <= i32::MAX,
            self.1 <= i32::MAX,
        ensures
            self.0 + v.0 >= 0 && self.1 + v.1 >= 0 ==> (r matches Some(p) && p.0 == self.0 + v.0
                && p.1 == self.1 + v.1),
            self.0 + v.0 < 0 || self.1 + v.1 < 0 ==> r is None,
    {
        let x = self.0 as i32 + v.0;
        let y = self.1 as i32 + v.1;
        if x >= 0 && y >= 0 {
            Some(Position(x as usize, y as usize))
        } else {
            None
        }
    }
}

/// One tile of a pipe maze: empty ground, the start marker, or a pipe
/// segment connecting two of the four neighbouring cells.
#[derive(Debug, Clone, Copy, PartialEq, Eq, Structural)]
pub enum PipeCell {
    Ground,
    Start,
    Horizontal,
    Vertical,
    SouthEast,
    SouthWest,
    NorthEast,
    NorthWest,
}

/// The two open ends of a pipe tile, or `None` for ground and the start
/// marker (whose shape is unknown).
pub open spec fn spec_connections(cell: PipeCell) -> Option<(Vector, Vector)> {
    match cell {
        PipeCell::Ground => Option::None,
        PipeCell::Start => Option::None,
        PipeCell::Horizontal => Some((Vector(-1i32, 0i32), Vector(1i32, 0i32))),
        PipeCell::Vertical => Some((Vector(0i32, -1i32), Vector(0i32, 1i32))),
        PipeCell::SouthEast => Some((Vector(0i32, 1i32), Vector(1i32, 0i32))),
        PipeCell::SouthWest => Some((Vector(0i32, 1i32), Vector(-1i32, 0i32))),
        PipeCell::NorthEast => Some((Vector(0i32, -1i32), Vector(1i32, 0i32))),
        PipeCell::NorthWest => Some((Vector(0i32, -1i32), Vector(-1i32, 0i32))),
    }
}

impl PipeCell {
    /// The two open ends of this tile, west/east and north/south given as
    /// unit displacements.
    pub fn connections(&self) -> (r: Option<(Vector, Vector)>)
        ensures
            r == spec_connections(*self),
    {
        match self {
            PipeCell::Ground => None,
            PipeCell::Start => None,
            PipeCell::Horizontal => Some((Vector(-1, 0), Vector(1, 0))),
            PipeCell::Vertical => Some((Vector(0, -1), Vector(0, 1))),
            PipeCell::SouthEast => Some((Vector(0, 1), Vector(1, 0))),
            PipeCell::SouthWest => Some((Vector(0, 1), Vector(-1, 0))),
            PipeCell::NorthEast => Some((Vector(0, -1), Vector(1, 0))),
            PipeCell::NorthWest => Some((Vector(0, -1), Vector(-1, 0))),
        }
    }

    /// Entering this tile through the end `position`, the end through
    /// which the walk leaves; `None` when the tile has no ends or
    /// `position` is not one of them.
    pub fn other_connection(&self, position: Vector) -> (r: Option<Vector>)
        ensures
            r == match spec_connections(*self) {
                Some(ends) => if position == ends.0 {
                    Some(ends.1)
                } else if position == ends.1 {
                    Some(ends.0)
                } else {
                    Option::<Vector>::None
                },
                Option::None => Option::<Vector>::None,
            },
    {
        let connections = match self.connections() {
            Some(c) => c,
            None => {
                return None;
            },
        };
        if connections.0 == position {
            Some(connections.1)
        } else if connections.1 == position {
            Some(connections.0)
        } else {
            None
        }
    }
}

/// A cell's marking during the flood fill that sorts ground into the
/// pipe loop's left and right sides.
#[derive(Debug, PartialEq, Eq, Clone, Copy, Structural)]
pub enum FloodFillIndex {
    Border,
    Left,
    Right,
    Unmarked,
}

impl FloodFillIndex {
    /// The same marking seen from the other side of the loop: left and
    /// right swap, the border and unmarked cells stay.
    pub fn invert(&self) -> (r: Self)
        ensures
            r == match *self {
                FloodFillIndex::Left => FloodFillIndex::Right,
                FloodFillIndex::Right => FloodFillIndex::Left,
                x => x,
            },
    {
        match self {
            FloodFillIndex::Left => FloodFillIndex::Right,
            FloodFillIndex::Right => FloodFillIndex::Left,
            x => *x,
        }
    }
}

} // verus!
