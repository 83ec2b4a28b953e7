//! Interval remapping: cutting a half-open `i64` range against a
//! splitting range and shifting the covered part by an offset.
//!
//! A `RangeMap` carries a source range and an offset; applied to a query
//! range it cuts the query into the part covered by the source — which
//! moves by the offset — and the uncovered remainder, reported by shape
//! (`RangeMapped`).

use core::ops::Range;
use core::ops::RangeInclusive;
use vstd::prelude::*;

verus! {

/// A half-open interval of `i64` values with the given bounds.
pub fn range_by_size(start: i64, size: i64) -> (r: Range<i64>)
    requires
        i64::MIN <= start + size <= i64::MAX,
    ensures
        r.start == start,
        r.end == start + size,
{
    start..(start + size)
}

/// A closed interval of `i64` values with the given bounds.
pub fn inclusive_range_by_size(start: i64, size: i64) -> (r: RangeInclusive<i64>)
    requires
        i64::MIN <= start + size <= i64::MAX,
{
    start..=(start + size)
}

/// The same interval shifted by `offset`.
pub fn move_range(range: &Range<i64>, offset: i64) -> (r: Range<i64>)
    requires
        i64::MIN <= range.start + offset <= i64::MAX,
        i64::MIN <= range.end + offset <= i64::MAX,
    ensures
        r.start == range.start + offset,
        r.end == range.end + offset,
{
    Range { start: range.start + offset, end: range.end + offset }
}

/// Where one bound of the splitting range sits relative to a query
/// range: clear of it, inside it, or past it on the covering side.
#[derive(Debug, Clone, Copy, PartialEq, Eq, Structural)]
pub enum RangePosition {
    NotOverlapping,
    Inner,
    Overlapping,
}

/// Where the splitting range's end sits relative to the query
/// `[qs, qe)`.
pub open spec fn end_position(se: int, qs: int, qe: int) -> RangePosition {
    if se <= qs {
        RangePosition::NotOverlapping
    } else if se >= qe {
        RangePosition::Overlapping
    } else {
        RangePosition::Inner
    }
}

/// Where the splitting range's start sits relative to the query
/// `[qs, qe)`.
pub open spec fn start_position(ss: int, qs: int, qe: int) -> RangePosition {
    if ss >= qe {
        RangePosition::NotOverlapping
    } else if ss <= qs {
        RangePosition::Overlapping
    } else {
        RangePosition::Inner
    }
}

/// A query range cut against a splitting range: the covered middle part
/// (shifted when mapping) together with the uncovered left and right
/// remainders, by shape.
#[derive(Debug)]
pub enum RangeMapped {
    Outside(Range<i64>),
    Inner(Range<i64>, Range<i64>, Range<i64>),
    Left(Range<i64>, Range<i64>),
    Right(Range<i64>, Range<i64>),
    Full(Range<i64>),
}

/// What cutting the query `[qs, qe)` against the splitter `[ss, se)`
/// yields, with the covered part shifted by `off`: the exact shape and
/// bounds of `r`.
pub open spec fn split_outcome(
    ss: int,
    se: int,
    qs: int,
    qe: int,
    off: int,
    r: RangeMapped,
) -> bool {
    let sp = start_position(ss, qs, qe);
    let ep = end_position(se, qs, qe);
    match r {
        RangeMapped::Inner(a, m, b) => {
            &&& sp is Inner
            &&& ep is Inner
            &&& a.start == qs && a.end == ss
            &&& m.start == ss + off && m.end == se + off
            &&& b.start == se && b.end == qe
        },
        RangeMapped::Left(m, b) => {
            &&& !(sp is Inner)
            &&& ep is Inner
            &&& m.start == qs + off && m.end == se + off
            &&& b.start == se && b.end == qe
        },
        RangeMapped::Right(a, m) => {
            &&& sp is Inner
            &&& !(ep is Inner)
            &&& a.start == qs && a.end == ss
            &&& m.start == ss + off && m.end == qe + off
        },
        RangeMapped::Full(m) => {
            &&& sp is Overlapping
            &&& ep is Overlapping
            &&& ss <= qs < se
            &&& m.start == qs + off && m.end == qe + off
        },
        RangeMapped::Outside(n) => {
            &&& !(sp is Inner)
            &&& !(ep is Inner)
            &&& !(sp is Overlapping && ep is Overlapping && ss <= qs < se)
            &&& n.start == qs && n.end == qe
        },
    }
}

/// A source range together with the offset its covered values move by.
#[derive(Debug, PartialEq, Eq)]
pub struct RangeMap {
    pub range: Range<i64>,
    pub offset: i64,
}

impl RangeMap {
    /// Cuts this map at `splitter` into two maps with the same offset;
    /// `None` when the splitter does not fall strictly inside the source
    /// range.
    pub fn split(&self, splitter: i64) -> (r: Option<(RangeMap, RangeMap)>)
        ensures
            (r is Some) <==> (splitter != self.range.start && self.range.start <= splitter
                && splitter < self.range.end),
            r matches Some(pair) ==> {
                &&& pair.0.range.start == self.range.start
                &&& pair.0.range.end == splitter
                &&& pair.0.offset == self.offset
                &&& pair.1.range.start == splitter
                &&& pair.1.range.end == self.range.end
                &&& pair.1.offset == self.offset
            },
    {
        if splitter != self.range.start && self.range.start <= splitter
            && splitter < self.range.end {
            Some(
                (
                    RangeMap {
                        range: Range { start: self.range.start, end: splitter },
                        offset: self.offset,
                    },
                    RangeMap {
                        range: Range { start: splitter, end: self.range.end },
                        offset: self.offset,
                    },
                ),
            )
        } else {
            None
        }
    }

    /// Cuts the query `range` against this map's source range without
    /// moving anything: the covered middle and the uncovered remainders,
    /// by shape.
    pub fn split_range(&self, range: &Range<i64>) -> (r: RangeMapped)
        ensures
            split_outcome(
                self.range.start as int,
                self.range.end as int,
                range.start as int,
                range.end as int,
                0,
                r,
            ),
    {
        let split_range = &self.range;
        let end_overlaps = if split_range.end <= range.start {
            RangePosition::NotOverlapping
        } else if split_range.end >= range.end {
            RangePosition::Overlapping
        } else {
            RangePosition::Inner
        };
        let start_overlaps = if split_range.start >= range.end {
            RangePosition::NotOverlapping
        } else if split_range.start <= range.start {
            RangePosition::Overlapping
        } else {
            RangePosition::Inner
        };
        match (start_overlaps, end_overlaps) {
            (RangePosition::Inner, RangePosition::Inner) => RangeMapped::Inner(
                Range { start: range.start, end: self.range.start },
                Range { start: self.range.start, end: self.range.end },
                Range { start: self.range.end, end: range.end },
            ),
            (_, RangePosition::Inner) => RangeMapped::Left(
                Range { start: range.start, end: self.range.end },
                Range { start: self.range.end, end: range.end },
            ),
            (RangePosition::Inner, _) => RangeMapped::Right(
                Range { start: range.start, end: self.range.start },
                Range { start: self.range.start, end: range.end },
            ),
            (RangePosition::Overlapping, RangePosition::Overlapping) => {
                if self.range.start <= range.start && range.start < self.range.end {
                    RangeMapped::Full(Range { start: range.start, end: range.end })
                } else {
                    RangeMapped::Outside(Range { start: range.start, end: range.end })
                }
            },
            _ => RangeMapped::Outside(Range { start: range.start, end: range.end }),
        }
    }

    /// Cuts the query `range` against this map's source range and moves
    /// the covered middle by this map's offset.
    pub fn map_range(&self, range: &Range<i64>) -> (r: RangeMapped)
        requires
            self.range.start <= self.range.end,
            range.start <= range.end,
            i64::MIN <= self.range.start + self.offset <= i64::MAX,
            i64::MIN <= self.range.end + self.offset <= i64::MAX,
        ensures
            split_outcome(
                self.range.start as int,
                self.range.end as int,
                range.start as int,
                range.end as int,
                self.offset as int,
                r,
            ),
    {
        match self.split_range(range) {
            RangeMapped::Outside(n) => RangeMapped::Outside(n),
            RangeMapped::Inner(l, m, r) => RangeMapped::Inner(
                l,
                move_range(&m, self.offset),
                r,
            ),
            RangeMapped::Left(m, r) => RangeMapped::Left(move_range(&m, self.offset), r),
            RangeMapped::Right(l, m) => RangeMapped::Right(l, move_range(&m, self.offset)),
            RangeMapped::Full(m) => RangeMapped::Full(move_range(&m, self.offset)),
        }
    }
}

/// The endpoints of a sequence of ranges, as integer pairs.
pub open spec fn ends(s: Seq<Range<i64>>) -> Seq<(int, int)> {
    Seq::new(s.len(), |i: int| (s[i].start as int, s[i].end as int))
}

/// Every range of the sequence runs forward.
pub open spec fn all_ordered(qs: Seq<(int, int)>) -> bool {
    forall|i: int| 0 <= i < qs.len() ==> (#[trigger] qs[i]).0 <= qs[i].1
}

/// Every map's source range runs forward and its shifted bounds stay in
/// `i64`.
pub open spec fn maps_wf(ms: Seq<RangeMap>) -> bool {
    forall|i: int|
        0 <= i < ms.len() ==> {
            let m = #[trigger] ms[i];
            &&& m.range.start <= m.range.end
            &&& i64::MIN <= m.range.start + m.offset <= i64::MAX
            &&& i64::MIN <= m.range.end + m.offset <= i64::MAX
        }
}

/// The covered part of the query `q` under the map `m`, shifted by the
/// map's offset: one range, or none when the map misses the query.
pub open spec fn rm_mapped_parts(m: RangeMap, q: (int, int)) -> Seq<(int, int)> {
    let ss = m.range.start as int;
    let se = m.range.end as int;
    let off = m.offset as int;
    let sp = start_position(ss, q.0, q.1);
    let ep = end_position(se, q.0, q.1);
    if sp is Inner && ep is Inner {
        seq![(ss + off, se + off)]
    } else if ep is Inner {
        seq![(q.0 + off, se + off)]
    } else if sp is Inner {
        seq![(ss + off, q.1 + off)]
    } else if sp is Overlapping && ep is Overlapping && ss <= q.0 < se {
        seq![(q.0 + off, q.1 + off)]
    } else {
        Seq::empty()
    }
}

/// The parts of the query `q` the map `m` leaves uncovered, in place.
pub open spec fn rm_unmapped_parts(m: RangeMap, q: (int, int)) -> Seq<(int, int)> {
    let ss = m.range.start as int;
    let se = m.range.end as int;
    let sp = start_position(ss, q.0, q.1);
    let ep = end_position(se, q.0, q.1);
    if sp is Inner && ep is Inner {
        seq![(q.0, ss), (se, q.1)]
    } else if ep is Inner {
        seq![(se, q.1)]
    } else if sp is Inner {
        seq![(q.0, ss)]
    } else if sp is Overlapping && ep is Overlapping && ss <= q.0 < se {
        Seq::empty()
    } else {
        seq![q]
    }
}

/// The covered parts one map cuts from a list of queries, in query
/// order.
pub open spec fn sweep_mapped(m: RangeMap, qs: Seq<(int, int)>) -> Seq<(int, int)>
    decreases qs.len(),
{
    if qs.len() == 0 {
        Seq::empty()
    } else {
        sweep_mapped(m, qs.drop_last()) + rm_mapped_parts(m, qs.last())
    }
}

/// The uncovered parts one map leaves of a list of queries, in query
/// order.
pub open spec fn sweep_unmapped(m: RangeMap, qs: Seq<(int, int)>) -> Seq<(int, int)>
    decreases qs.len(),
{
    if qs.len() == 0 {
        Seq::empty()
    } else {
        sweep_unmapped(m, qs.drop_last()) + rm_unmapped_parts(m, qs.last())
    }
}

/// The uncovered remainder of `q` after the first `k` maps have each
/// cut what they cover.
pub open spec fn run_unmapped(ms: Seq<RangeMap>, q: (int, int), k: int) -> Seq<(int, int)>
    decreases k,
{
    if k <= 0 {
        seq![q]
    } else {
        sweep_unmapped(ms[k - 1], run_unmapped(ms, q, k - 1))
    }
}

/// All covered-and-shifted parts the first `k` maps cut from `q`, in
/// the order the maps and the surviving remainders are visited.
pub open spec fn run_mapped(ms: Seq<RangeMap>, q: (int, int), k: int) -> Seq<(int, int)>
    decreases k,
{
    if k <= 0 {
        Seq::empty()
    } else {
        run_mapped(ms, q, k - 1) + sweep_mapped(ms[k - 1], run_unmapped(ms, q, k - 1))
    }
}

/// The uncovered parts of an ordered query are ordered.
proof fn lemma_unmapped_parts_ordered(m: RangeMap, q: (int, int))
    requires
        q.0 <= q.1,
    ensures
        all_ordered(rm_unmapped_parts(m, q)),
{
}

/// An ordered list of sources, cut one after the other by a list of
/// maps.
#[derive(Debug)]
pub struct Remapper {
    pub range_maps: Vec<RangeMap>,
}

impl Remapper {
    /// Cuts the query against every map in turn: each map shifts the
    /// parts of the still-uncovered ranges it covers, and what no map
    /// covers comes last, unmoved. The result lists the shifted parts
    /// in visiting order, then the uncovered remainder.
    pub fn map_range(&self, range: Range<i64>) -> (r: Vec<Range<i64>>)
        requires
            maps_wf(self.range_maps@),
            range.start <= range.end,
        ensures
            ({
                let q = (range.start as int, range.end as int);
                let n = self.range_maps@.len() as int;
                ends(r@) == run_mapped(self.range_maps@, q, n) + run_unmapped(
                    self.range_maps@,
                    q,
                    n,
                )
            }),
    {
        let ghost q = (range.start as int, range.end as int);
        let ghost ms = self.range_maps@;
        let mut unmapped_ranges: Vec<Range<i64>> = Vec::new();
        unmapped_ranges.push(Range { start: range.start, end: range.end });
        let mut mapped_ranges: Vec<Range<i64>> = Vec::new();
        proof {
            assert(ends(unmapped_ranges@) =~= run_unmapped(ms, q, 0));
            assert(ends(mapped_ranges@) =~= run_mapped(ms, q, 0));
        }
        let mut k: usize = 0;
        while k < self.range_maps.len()
            invariant
                maps_wf(ms),
                ms == self.range_maps@,
                k <= ms.len(),
                ends(unmapped_ranges@) == run_unmapped(ms, q, k as int),
                ends(mapped_ranges@) == run_mapped(ms, q, k as int),
                all_ordered(ends(unmapped_ranges@)),
            decreases ms.len() - k,
        {
            let ghost m = ms[k as int];
            let ghost qs = ends(unmapped_ranges@);
            let mut new_unmapped: Vec<Range<i64>> = Vec::new();
            let mut j: usize = 0;
            while j < unmapped_ranges.len()
                invariant
                    maps_wf(ms),
                    ms == self.range_maps@,
                    k < ms.len(),
                    m == ms[k as int],
                    qs == ends(unmapped_ranges@),
                    all_ordered(qs),
                    j <= unmapped_ranges@.len(),
                    ends(new_unmapped@) == sweep_unmapped(m, qs.take(j as int)),
                    ends(mapped_ranges@) == run_mapped(ms, q, k as int) + sweep_mapped(
                        m,
                        qs.take(j as int),
                    ),
                    all_ordered(ends(new_unmapped@)),
                decreases unmapped_ranges@.len() - j,
            {
                let query = Range {
                    start: unmapped_ranges[j].start,
                    end: unmapped_ranges[j].end,
                };
                proof {
                    assert(qs[j as int] == (query.start as int, query.end as int));
                    assert(qs.take(j as int + 1).drop_last() =~= qs.take(j as int));
                    assert(qs.take(j as int + 1).last() == qs[j as int]);
                    lemma_unmapped_parts_ordered(m, qs[j as int]);
                }
                let ghost old_new = ends(new_unmapped@);
                let ghost old_mapped = ends(mapped_ranges@);
                match self.range_maps[k].map_range(&query) {
                    RangeMapped::Outside(n) => {
                        new_unmapped.push(n);
                        proof {
                            assert(ends(new_unmapped@) =~= old_new + rm_unmapped_parts(
                                m,
                                qs[j as int],
                            ));
                            assert(ends(mapped_ranges@) =~= old_mapped + rm_mapped_parts(
                                m,
                                qs[j as int],
                            ));
                        }
                    },
                    RangeMapped::Inner(l, mid, rr) => {
                        new_unmapped.push(l);
                        new_unmapped.push(rr);
                        mapped_ranges.push(mid);
                        proof {
                            assert(ends(new_unmapped@) =~= old_new + rm_unmapped_parts(
                                m,
                                qs[j as int],
                            ));
                            assert(ends(mapped_ranges@) =~= old_mapped + rm_mapped_parts(
                                m,
                                qs[j as int],
                            ));
                        }
                    },
                    RangeMapped::Left(mid, rr) => {
                        new_unmapped.push(rr);
                        mapped_ranges.push(mid);
                        proof {
                            assert(ends(new_unmapped@) =~= old_new + rm_unmapped_parts(
                                m,
                                qs[j as int],
                            ));
                            assert(ends(mapped_ranges@) =~= old_mapped + rm_mapped_parts(
                                m,
                                qs[j as int],
                            ));
                        }
                    },
                    RangeMapped::Right(l, mid) => {
                        new_unmapped.push(l);
                        mapped_ranges.push(mid);
                        proof {
                            assert(ends(new_unmapped@) =~= old_new + rm_unmapped_parts(
                                m,
                                qs[j as int],
                            ));
                            assert(ends(mapped_ranges@) =~= old_mapped + rm_mapped_parts(
                                m,
                                qs[j as int],
                            ));
                        }
                    },
                    RangeMapped::Full(mid) => {
                        mapped_ranges.push(mid);
                        proof {
                            assert(ends(new_unmapped@) =~= old_new + rm_unmapped_parts(
                                m,
                                qs[j as int],
                            ));
                            assert(ends(mapped_ranges@) =~= old_mapped + rm_mapped_parts(
                                m,
                                qs[j as int],
                            ));
                        }
                    },
                }
                j = j + 1;
            }
            proof {
                assert(qs.take(unmapped_ranges@.len() as int) =~= qs);
            }
            unmapped_ranges = new_unmapped;
            k = k + 1;
        }
        let mut j: usize = 0;
        let ghost m_final = run_mapped(ms, q, ms.len() as int);
        let ghost u_final = run_unmapped(ms, q, ms.len() as int);
        while j < unmapped_ranges.len()
            invariant
                j <= unmapped_ranges@.len(),
                u_final == ends(unmapped_ranges@),
                ends(mapped_ranges@) == m_final + u_final.take(j as int),
            decreases unmapped_ranges@.len() - j,
        {
            proof {
                assert(u_final.take(j as int + 1).drop_last() =~= u_final.take(j as int));
            }
            let ghost old_mapped = ends(mapped_ranges@);
            mapped_ranges.push(
                Range { start: unmapped_ranges[j].start, end: unmapped_ranges[j].end },
            );
            proof {
                assert(ends(mapped_ranges@) =~= old_mapped.push(u_final[j as int]));
                assert(m_final + u_final.take(j as int + 1) =~= old_mapped.push(
                    u_final[j as int],
                ));
            }
            j = j + 1;
        }
        proof {
            assert(u_final.take(unmapped_ranges@.len() as int) =~= u_final);
        }
        mapped_ranges
    }
}

} // verus!
