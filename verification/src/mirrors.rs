//! Mirror detection on boolean grids: finding a horizontal or vertical
//! line across which the grid is a reflection of itself, up to a fixed
//! number of mismatched cell pairs.
//!
//! A reflection line sits between two rows or two columns; reflecting a
//! coordinate across the line between `mirror - 1` and `mirror` sends
//! `value` to `2 * mirror - value - 1`. The grid "reflects" at a line
//! when exactly two cell comparisons across it disagree — one smudged
//! pair, counted once from each side.

use vstd::prelude::*;

use crate::grid::{lemma_row_major_decode, spec_pos_of_index, Grid, Position};

verus! {

/// The coordinate `value` reflected across the line between
/// `mirror - 1` and `mirror`, or `None` when the image falls below
/// zero.
pub open spec fn spec_reflect(value: int, mirror: int) -> Option<usize> {
    if 2 * mirror - value - 1 >= 0 {
        Some((2 * mirror - value - 1) as usize)
    } else {
        Option::None
    }
}

/// The position `value` reflected across the vertical line left of
/// column `mirror`, or `None` when the image falls off the grid's left
/// edge.
pub open spec fn spec_reflect_horizontally(value: Position, mirror: int) -> Option<Position> {
    match spec_reflect(value.0 as int, mirror) {
        Some(x) => Some(Position(x, value.1)),
        Option::None => Option::None,
    }
}

/// The position `value` reflected across the horizontal line above row
/// `mirror`, or `None` when the image falls off the grid's top edge.
pub open spec fn spec_reflect_vertically(value: Position, mirror: int) -> Option<Position> {
    match spec_reflect(value.1 as int, mirror) {
        Some(y) => Some(Position(value.0, y)),
        Option::None => Option::None,
    }
}

/// Reflects one coordinate across the line between `mirror - 1` and
/// `mirror`.
pub fn reflect_usize(value: usize, mirror: usize) -> (r: Option<usize>)
    requires
        value < mirror ==> value + 2 * (mirror - value) <= usize::MAX,
        value >= mirror ==> 2 * (value - mirror) + 1 <= usize::MAX,
    ensures
        r == spec_reflect(value as int, mirror as int),
{
    if value < mirror {
        Some(value + (mirror - value) * 2 - 1)
    } else {
        value.checked_sub((value - mirror) * 2 + 1)
    }
}

/// Reflects a position across the vertical line left of column
/// `mirror`.
pub fn reflect_horizontally(value: &Position, mirror: usize) -> (r: Option<Position>)
    requires
        value.0 < mirror ==> value.0 + 2 * (mirror - value.0) <= usize::MAX,
        value.0 >= mirror ==> 2 * (value.0 - mirror) + 1 <= usize::MAX,
    ensures
        r == spec_reflect_horizontally(*value, mirror as int),
{
    match reflect_usize(value.0, mirror) {
        Some(x) => Some(Position(x, value.1)),
        None => None,
    }
}

/// Reflects a position across the horizontal line above row `mirror`.
pub fn reflect_vertically(value: &Position, mirror: usize) -> (r: Option<Position>)
    requires
        value.1 < mirror ==> value.1 + 2 * (mirror - value.1) <= usize::MAX,
        value.1 >= mirror ==> 2 * (value.1 - mirror) + 1 <= usize::MAX,
    ensures
        r == spec_reflect_vertically(*value, mirror as int),
{
    match reflect_usize(value.1, mirror) {
        Some(y) => Some(Position(value.0, y)),
        None => None,
    }
}

/// How many of the first `k` cells (in row-major order) disagree with
/// their mirror image under `m`: a cell counts when its image exists,
/// lies on the grid, and holds the other value.
pub open spec fn mismatches_upto(
    g: Grid<bool>,
    m: spec_fn(Position) -> Option<Position>,
    k: int,
) -> int
    decreases k,
{
    if k <= 0 {
        0
    } else {
        let p = spec_pos_of_index(g.spec_size(), k - 1);
        mismatches_upto(g, m, k - 1) + match m(p) {
            Some(q) => if q.spec_within(g.spec_size()) && g.cell(p) != g.cell(q) {
                1int
            } else {
                0int
            },
            Option::None => 0int,
        }
    }
}

/// Two mirror descriptions that agree pointwise count the same
/// mismatches.
pub proof fn lemma_mismatches_agree(
    g: Grid<bool>,
    m1: spec_fn(Position) -> Option<Position>,
    m2: spec_fn(Position) -> Option<Position>,
    k: int,
)
    requires
        forall|p: Position| #[trigger] m1(p) == m2(p),
    ensures
        mismatches_upto(g, m1, k) == mismatches_upto(g, m2, k),
    decreases k,
{
    if k > 0 {
        lemma_mismatches_agree(g, m1, m2, k - 1);
    }
}

/// The horizontal line above row `y` reflects the grid with exactly two
/// disagreeing cell comparisons.
pub open spec fn row_line_reflects(g: Grid<bool>, y: int) -> bool {
    mismatches_upto(
        g,
        |p: Position| spec_reflect_vertically(p, y),
        g.spec_size().0 * g.spec_size().1,
    ) == 2
}

/// The vertical line left of column `x` reflects the grid with exactly
/// two disagreeing cell comparisons.
pub open spec fn column_line_reflects(g: Grid<bool>, x: int) -> bool {
    mismatches_upto(
        g,
        |p: Position| spec_reflect_horizontally(p, x),
        g.spec_size().0 * g.spec_size().1,
    ) == 2
}

impl Grid<bool> {
    /// Whether the grid reflects under `mirror` with exactly two
    /// disagreeing cell comparisons: one smudged pair, seen once from
    /// each side. The ghost argument `m` names what `mirror` computes.
    pub fn reflects_with_function<F: Fn(&Position) -> Option<Position>>(
        &self,
        mirror: F,
        Ghost(m): Ghost<spec_fn(Position) -> Option<Position>>,
    ) -> (r: bool)
        requires
            self.wf(),
            forall|p: Position| p.spec_within(self.spec_size()) ==> mirror.requires((&p,)),
            forall|p: Position, o: Option<Position>|
                #[trigger] call_ensures(mirror, (&p,), o) ==> o == m(p),
        ensures
            r == (mismatches_upto(*self, m, self.spec_size().0 * self.spec_size().1) == 2),
    {
        let size = self.size();
        let count = size.0 * size.1;
        let mut mismatched: usize = 0;
        let mut k: usize = 0;
        while k < count
            invariant
                self.wf(),
                size == self.spec_size(),
                count == size.0 * size.1,
                k <= count,
                mismatched <= k,
                mismatched as int == mismatches_upto(*self, m, k as int),
                forall|p: Position| p.spec_within(self.spec_size()) ==> mirror.requires((&p,)),
                forall|p: Position, o: Option<Position>|
                    #[trigger] call_ensures(mirror, (&p,), o) ==> o == m(p),
            decreases count - k,
        {
            proof {
                lemma_row_major_decode(k as int, size.0 as int, size.1 as int);
            }
            let position = Position(k % size.0, k / size.0);
            proof {
                assert(position == spec_pos_of_index(size, k as int));
                assert(position.spec_within(size));
            }
            let reflected = mirror(&position);
            match reflected {
                Some(reflected_position) => {
                    let original_get = self.get(position);
                    let reflected_get = self.get(reflected_position);
                    match (original_get, reflected_get) {
                        (Some(a), Some(b)) => {
                            if *a != *b {
                                mismatched = mismatched + 1;
                            }
                        },
                        _ => (),
                    }
                },
                None => (),
            }
            k = k + 1;
        }
        mismatched == 2
    }

    /// The grid's reflection summary: one hundred times the first row
    /// index whose horizontal line reflects the grid with one smudge,
    /// or, failing that, the first column index whose vertical line
    /// does, or zero when no line qualifies.
    pub fn solve(&self) -> (r: usize)
        requires
            self.wf(),
            self.spec_size().1 * 100 <= usize::MAX,
            self.spec_size().0 * 2 + 1 <= usize::MAX,
        ensures
            ({
                let w = self.spec_size().0 as int;
                let h = self.spec_size().1 as int;
                if exists|y: int| 1 <= y < h && #[trigger] row_line_reflects(*self, y) {
                    exists|y: int|
                        {
                            &&& 1 <= y < h
                            &&& #[trigger] row_line_reflects(*self, y)
                            &&& (forall|y2: int| 1 <= y2 < y ==> !row_line_reflects(*self, y2))
                            &&& r == y * 100
                        }
                } else if exists|x: int| 1 <= x < w && #[trigger] column_line_reflects(*self, x) {
                    exists|x: int|
                        {
                            &&& 1 <= x < w
                            &&& #[trigger] column_line_reflects(*self, x)
                            &&& (forall|x2: int| 1 <= x2 < x ==> !column_line_reflects(*self, x2))
                            &&& r == x
                        }
                } else {
                    r == 0
                }
            }),
    {
        let size = self.size();
        let mut y: usize = 1;
        while y < size.1
            invariant
                self.wf(),
                size == self.spec_size(),
                self.spec_size().1 * 100 <= usize::MAX,
                self.spec_size().0 * 2 + 1 <= usize::MAX,
                1 <= y,
                size.1 >= 1 ==> y <= size.1,
                forall|y2: int| 1 <= y2 < y ==> !row_line_reflects(*self, y2),
            decreases size.1 - y,
        {
            let ghost m = |p: Position| spec_reflect_vertically(p, y as int);
            let line = |p: &Position| -> (o: Option<Position>)
                requires
                    p.1 < size.1,
                    size.1 * 100 <= usize::MAX,
                    0 < y < size.1,
                ensures
                    o == spec_reflect_vertically(*p, y as int),
                { reflect_vertically(p, y) };
            if self.reflects_with_function(line, Ghost(m)) {
                proof {
                    lemma_mismatches_agree(
                        *self,
                        m,
                        |p: Position| spec_reflect_vertically(p, y as int),
                        self.spec_size().0 * self.spec_size().1,
                    );
                    assert(row_line_reflects(*self, y as int));
                    assert(exists|y2: int|
                        1 <= y2 < self.spec_size().1 && #[trigger] row_line_reflects(
                            *self,
                            y2,
                        ));
                }
                return y * 100;
            }
            proof {
                lemma_mismatches_agree(
                    *self,
                    m,
                    |p: Position| spec_reflect_vertically(p, y as int),
                    self.spec_size().0 * self.spec_size().1,
                );
            }
            y = y + 1;
        }
        let mut x: usize = 1;
        while x < size.0
            invariant
                self.wf(),
                size == self.spec_size(),
                self.spec_size().0 * 2 + 1 <= usize::MAX,
                1 <= x,
                x <= size.0,
                forall|y2: int| 1 <= y2 < size.1 ==> !row_line_reflects(*self, y2),
                forall|x2: int| 1 <= x2 < x ==> !column_line_reflects(*self, x2),
            decreases size.0 - x,
        {
            let ghost m = |p: Position| spec_reflect_horizontally(p, x as int);
            let line = |p: &Position| -> (o: Option<Position>)
                requires
                    p.0 < size.0,
                    size.0 * 2 + 1 <= usize::MAX,
                    0 < x < size.0,
                ensures
                    o == spec_reflect_horizontally(*p, x as int),
                { reflect_horizontally(p, x) };
            if self.reflects_with_function(line, Ghost(m)) {
                proof {
                    lemma_mismatches_agree(
                        *self,
                        m,
                        |p: Position| spec_reflect_horizontally(p, x as int),
                        self.spec_size().0 * self.spec_size().1,
                    );
                    assert(column_line_reflects(*self, x as int));
                    assert(exists|x2: int|
                        1 <= x2 < self.spec_size().0 && #[trigger] column_line_reflects(
                            *self,
                            x2,
                        ));
                }
                return x;
            }
            proof {
                lemma_mismatches_agree(
                    *self,
                    m,
                    |p: Position| spec_reflect_horizontally(p, x as int),
                    self.spec_size().0 * self.spec_size().1,
                );
            }
            x = x + 1;
        }
        0
    }
}

} // verus!
