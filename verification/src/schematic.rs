//! The engine schematic's fixed board: a square of 140 by 140 cells,
//! with a signed bounds check for neighbour probing near the edges.

use vstd::prelude::*;

verus! {

/// The side length of the schematic board.
pub const WIDTH: i32 = 140;

/// The side length of the schematic board (the board is square).
pub const HEIGHT: i32 = WIDTH;

/// Whether the signed coordinates land on the board: both within
/// `[0, HEIGHT)`.
pub fn position_inside(x: i32, y: i32) -> (r: bool)
    ensures
        r == (0 <= x < HEIGHT && 0 <= y < HEIGHT),
{
    x >= 0 && x < HEIGHT && y >= 0 && y < HEIGHT
}

} // verus!
