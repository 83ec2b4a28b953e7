//! Single-value range lookup: a contiguous block of sources mapped onto
//! a contiguous block of destinations.

use core::ops::Range;
use vstd::prelude::*;

verus! {

/// A block of `size` consecutive sources beginning at `source`, mapped
/// one for one onto the block beginning at `destination`.
#[derive(Debug)]
pub struct RangeMap {
    pub source: u64,
    pub destination: u64,
    pub size: u64,
}

impl RangeMap {
    /// The half-open range of sources this map covers.
    pub fn source_range(&self) -> (r: Range<u64>)
        requires
            self.source + self.size <= u64::MAX,
        ensures
            r.start == self.source,
            r.end == self.source + self.size,
    {
        Range { start: self.source, end: self.source + self.size }
    }

    /// Where `from` lands under this map: shifted into the destination
    /// block when the map covers it, `None` otherwise.
    pub fn map(&self, from: u64) -> (r: Option<u64>)
        requires
            self.source + self.size <= u64::MAX,
            from + self.destination <= u64::MAX,
        ensures
            self.source <= from < self.source + self.size ==> r == Some(
                (from - self.source + self.destination) as u64,
            ),
            !(self.source <= from < self.source + self.size) ==> r is None,
    {
        let range = self.source_range();
        if range.start <= from && from < range.end {
            Some(from + self.destination - self.source)
        } else {
            None
        }
    }
}

} // verus!
