//! The cube game's rule table: how many cubes of each colour the bag
//! can hold at most.

use vstd::prelude::*;

verus! {

/// A cube colour.
#[derive(Copy, Clone, Debug, PartialEq, Eq, Structural)]
pub enum Color {
    Red,
    Green,
    Blue,
}

impl Color {
    /// The most cubes of this colour the bag may contain: twelve red,
    /// thirteen green, fourteen blue.
    pub fn max_in_bag(&self) -> (r: u32)
        ensures
            r == match *self {
                Color::Red => 12u32,
                Color::Green => 13u32,
                Color::Blue => 14u32,
            },
    {
        match self {
            Color::Red => 12,
            Color::Green => 13,
            Color::Blue => 14,
        }
    }
}

} // verus!
