//! Dense two-dimensional container addressed by `Position` coordinates.
//!
//! A `Grid` owns a flat row-major vector of cells together with its size; the
//! well-formedness invariant ties the vector's length to `width * height`.
//! Bounds violations are an expected, recoverable outcome: `get` and `set`
//! report them instead of panicking.

use vstd::prelude::*;

verus! {

/// A pair of non-negative coordinates `(column, row)`; also used to carry a
/// grid size as `(width, height)`.
#[derive(Debug, Clone, Copy, PartialEq, Eq, Hash, Structural)]
pub struct Position(pub usize, pub usize);

/// The absolute difference of two coordinates, plus the same on the other
/// axis: the taxicab distance between `a` and `b`.
pub open spec fn spec_distance(a: Position, b: Position) -> int {
    let dx: int = if a.0 >= b.0 { a.0 - b.0 } else { b.0 - a.0 };
    let dy: int = if a.1 >= b.1 { a.1 - b.1 } else { b.1 - a.1 };
    dx + dy
}

/// The position a flat row-major index denotes inside a box of size `size`.
pub open spec fn spec_pos_of_index(size: Position, index: int) -> Position {
    Position((index % (size.0 as int)) as usize, (index / (size.0 as int)) as usize)
}

/// The flat row-major index of `p` inside a box of size `size`.
pub open spec fn spec_index_of_pos(size: Position, p: Position) -> int {
    p.1 * size.0 + p.0
}

impl Position {
    /// Whether `self` lies strictly inside the box whose size is `position`.
    pub open spec fn spec_within(self, position: Position) -> bool {
        self.0 < position.0 && self.1 < position.1
    }

    /// Whether `self` lies inside the box of size `position`, on both axes.
    pub fn within(&self, position: Position) -> (r: bool)
        ensures
            r == self.spec_within(position),
    {
        self.0 < position.0 && self.1 < position.1
    }

    /// Decodes a flat row-major index into a position inside the box whose
    /// size is `self`, or `None` when the index lies past the last cell.
    fn index_to_position(&self, index: usize) -> (r: Option<Position>)
        requires
            self.0 >= 1,
        ensures
            index < self.0 * self.1 ==> r == Some(spec_pos_of_index(*self, index as int)),
            index >= self.0 * self.1 ==> r is None,
    {
        proof {
            lemma_row_major_decode(index as int, self.0 as int, self.1 as int);
        }
        let position = Position(index % self.0, index / self.0);
        match position.within(*self) {
            true => Some(position),
            false => None,
        }
    }

    /// Encodes a position inside the box whose size is `self` as a flat
    /// row-major index, or `None` when the position lies outside the box.
    fn position_to_index(&self, position: Position) -> (r: Option<usize>)
        requires
            self.0 * self.1 <= usize::MAX,
        ensures
            position.spec_within(*self) ==> r == Some(
                spec_index_of_pos(*self, position) as usize,
            ),
            !position.spec_within(*self) ==> r is None,
            r is Some ==> spec_index_of_pos(*self, position) < self.0 * self.1,
    {
        match position.within(*self) {
            true => {
                proof {
                    lemma_row_major_encode(
                        position.0 as int,
                        position.1 as int,
                        self.0 as int,
                        self.1 as int,
                    );
                }
                Some(position.1 * self.0 + position.0)
            },
            false => None,
        }
    }

    /// The number of cells in a box of size `self`.
    fn size(&self) -> (r: usize)
        requires
            self.0 * self.1 <= usize::MAX,
        ensures
            r == self.0 * self.1,
    {
        self.0 * self.1
    }

    /// The taxicab distance between `a` and `b`.
    pub fn distance(a: Self, b: Self) -> (r: usize)
        requires
            spec_distance(a, b) <= usize::MAX,
        ensures
            r == spec_distance(a, b),
    {
        let dx: usize = if a.0 >= b.0 {
            a.0 - b.0
        } else {
            b.0 - a.0
        };
        let dy: usize = if a.1 >= b.1 {
            a.1 - b.1
        } else {
            b.1 - a.1
        };
        dx + dy
    }

    /// A restartable cursor over every position inside the box of size
    /// `self`, in row-major order (row index varies slowest).
    pub fn positions(self) -> (it: PositionIterator)
        ensures
            it.now == 0,
            it.until == self,
    {
        PositionIterator { now: 0, until: self }
    }
}

/// Walks every position inside the box of size `until` in row-major order:
/// `next` yields the position with flat index `now` and advances.
#[derive(Debug)]
pub struct PositionIterator {
    pub now: usize,
    pub until: Position,
}

impl PositionIterator {
    /// The next position in row-major order, or `None` once every cell of
    /// the box has been yielded.
    pub fn next(&mut self) -> (r: Option<Position>)
        requires
            old(self).until.0 >= 1,
            old(self).now < usize::MAX,
        ensures
            final(self).until == old(self).until,
            final(self).now == old(self).now + 1,
            old(self).now < old(self).until.0 * old(self).until.1 ==> r == Some(
                spec_pos_of_index(old(self).until, old(self).now as int),
            ),
            old(self).now >= old(self).until.0 * old(self).until.1 ==> r is None,
    {
        let returner = self.until.index_to_position(self.now);
        self.now = self.now + 1;
        returner
    }
}

/// A two-dimensional displacement; kept alongside `Position` for callers
/// that record directed offsets between cells.
#[derive(Debug)]
pub struct Vector(pub i32, pub i32);

/// A dense rectangular array of `T` cells, stored row by row.
#[derive(Debug, PartialEq, Eq, Hash, Clone)]
pub struct Grid<T> {
    grid: Vec<T>,
    size: Position,
}

/// Reported by `Grid::set` when the addressed position lies outside the
/// grid: carries the offending access and the grid's size.
#[derive(Debug)]
pub struct OutOfGridError {
    pub access: Position,
    pub size: Position,
}

impl<T> Grid<T> {
    /// The grid's size as `(width, height)`.
    pub closed spec fn spec_size(&self) -> Position {
        self.size
    }

    /// The cells in row-major order.
    pub closed spec fn contents(&self) -> Seq<T> {
        self.grid@
    }

    /// The container invariant: the flat vector holds exactly one cell per
    /// position of a box at least one column wide.
    pub open spec fn wf(&self) -> bool {
        &&& self.contents().len() == self.spec_size().0 * self.spec_size().1
        &&& self.spec_size().0 >= 1
        &&& self.spec_size().0 * self.spec_size().1 <= usize::MAX
    }

    /// The cell stored at position `p`, meaningful when `p` is within the
    /// grid's size.
    pub open spec fn cell(&self, p: Position) -> T {
        self.contents()[spec_index_of_pos(self.spec_size(), p)]
    }

    /// Builds a grid of the given size whose cell at each position is the
    /// value `f` returns for that position.
    pub fn with<F: Fn(Position) -> T>(size: Position, f: F) -> (g: Grid<T>)
        requires
            size.0 >= 1,
            size.0 * size.1 <= usize::MAX,
            forall|p: Position| p.spec_within(size) ==> f.requires((p,)),
        ensures
            g.wf(),
            g.spec_size() == size,
            forall|i: int|
                0 <= i < size.0 * size.1 ==> call_ensures(
                    f,
                    (spec_pos_of_index(size, i),),
                    #[trigger] g.contents()[i],
                ),
    {
        let count = size.size();
        let mut grid: Vec<T> = Vec::with_capacity(count);
        let mut i: usize = 0;
        while i < count
            invariant
                count == size.0 * size.1,
                size.0 >= 1,
                i <= count,
                grid@.len() == i,
                forall|p: Position| p.spec_within(size) ==> f.requires((p,)),
                forall|k: int|
                    0 <= k < i ==> call_ensures(
                        f,
                        (spec_pos_of_index(size, k),),
                        #[trigger] grid@[k],
                    ),
            decreases count - i,
        {
            proof {
                lemma_row_major_decode(i as int, size.0 as int, size.1 as int);
            }
            let p = Position(i % size.0, i / size.0);
            proof {
                assert(p.spec_within(size));
            }
            grid.push(f(p));
            i = i + 1;
        }
        Grid { grid, size }
    }

    /// Wraps an existing flat vector as a grid `width` cells wide; fails
    /// when the vector cannot be cut into whole rows of that width (in
    /// particular when `width` is zero).
    pub fn with_vec(vec: Vec<T>, width: usize) -> (r: Option<Grid<T>>)
        ensures
            (r is Some) <==> (width >= 1 && vec@.len() as int % (width as int) == 0),
            r matches Some(g) ==> {
                &&& g.wf()
                &&& g.contents() == vec@
                &&& g.spec_size() == Position(width, (vec@.len() as int / (width as int)) as usize)
            },
    {
        let len = vec.len();
        if width >= 1 && len % width == 0 {
            let height = len / width;
            proof {
                vstd::arithmetic::div_mod::lemma_fundamental_div_mod(
                    vec@.len() as int,
                    width as int,
                );
            }
            let size = Position(width, height);
            Some(Grid { grid: vec, size })
        } else {
            None
        }
    }

    /// The cell at `position`, or `None` when the position lies outside the
    /// grid.
    pub fn get(&self, position: Position) -> (r: Option<&T>)
        requires
            self.wf(),
        ensures
            position.spec_within(self.spec_size()) ==> r == Some(&self.cell(position)),
            !position.spec_within(self.spec_size()) ==> r is None,
    {
        match self.size.position_to_index(position) {
            Some(index) => Some(&self.grid[index]),
            None => None,
        }
    }

    /// Replaces the cell at `position`, or reports an `OutOfGridError`
    /// naming the access and the grid's size, leaving the grid unchanged.
    pub fn set(&mut self, position: Position, t: T) -> (r: Result<(), OutOfGridError>)
        requires
            old(self).wf(),
        ensures
            final(self).wf(),
            final(self).spec_size() == old(self).spec_size(),
            position.spec_within(old(self).spec_size()) ==> {
                &&& r is Ok
                &&& final(self).contents() == old(self).contents().update(
                    spec_index_of_pos(old(self).spec_size(), position),
                    t,
                )
            },
            !position.spec_within(old(self).spec_size()) ==> {
                &&& *final(self) == *old(self)
                &&& r matches Err(e) && e.access == position && e.size == old(self).spec_size()
            },
    {
        match self.size.position_to_index(position) {
            Some(index) => {
                self.grid[index] = t;
                Ok(())
            },
            None => Err(OutOfGridError { access: position, size: self.size }),
        }
    }

    /// The cells in row-major order, as the flat vector the grid owns.
    pub fn cells(&self) -> (r: &Vec<T>)
        ensures
            r@ == self.contents(),
    {
        &self.grid
    }

    /// The grid's size as `(width, height)`.
    pub fn size(&self) -> (r: Position)
        ensures
            r == self.spec_size(),
    {
        self.size
    }
}

/// Decoding a flat index by `% width` and `/ width` lands within the box
/// exactly when the index addresses one of its `width * height` cells.
pub proof fn lemma_row_major_decode(index: int, w: int, h: int)
    requires
        w >= 1,
        index >= 0,
    ensures
        0 <= index % w < w,
        index / w >= 0,
        index / w < h <==> index < w * h,
        w * (index / w) + index % w == index,
{
    vstd::arithmetic::div_mod::lemma_fundamental_div_mod(index, w);
    assert(index / w < h <==> index < w * h) by (nonlinear_arith)
        requires
            w >= 1,
            index >= 0,
            index == w * (index / w) + index % w,
            0 <= index % w < w,
    {}
}

/// Encoding an in-box position as `row * width + column` stays below the
/// box's cell count.
proof fn lemma_row_major_encode(x: int, y: int, w: int, h: int)
    requires
        0 <= x < w,
        0 <= y < h,
    ensures
        0 <= y * w + x < w * h,
        spec_pos_of_index(Position(w as usize, h as usize), y * w + x) == Position(
            x as usize,
            y as usize,
        ) || w > usize::MAX || h > usize::MAX,
{
    assert(0 <= y * w + x < w * h) by (nonlinear_arith)
        requires
            0 <= x < w,
            0 <= y < h,
    {}
    assert((y * w + x) % w == x && (y * w + x) / w == y) by (nonlinear_arith)
        requires
            0 <= x < w,
            0 <= y,
    {}
}

} // verus!
