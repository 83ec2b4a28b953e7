//! Constrained shortest-path solver over a cost grid.
//!
//! A path starts at an origin cell, moves between orthogonally adjacent
//! cells, and pays the entry cost of every cell it moves onto. Movement is
//! constrained by the run of consecutive steps in one direction: at most
//! `max_run` steps straight, and no turn before `min_run` consecutive
//! steps (the very first step from the origin is exempt). The path may
//! stop on the destination only after at least `min_run` consecutive
//! steps in its final direction.
//!
//! The search graph's nodes are therefore not bare positions but
//! *states*: position, facing direction, and the run of consecutive steps
//! already taken in that direction. The solver relaxes a best-cost table
//! over this state graph to a fixed point; the table reached is the
//! unique one that is consistent (start entries at zero, every graph edge
//! relaxed) and dominates every consistent table, which pins the answer
//! down to a function of the inputs alone.

use vstd::prelude::*;

use crate::cost::{
    finite_count, le_opt, le_opt_plus, lemma_finite_count_bounds, lemma_finite_count_update,
    lemma_measure_nonneg, lemma_measure_update, table_measure, wt,
};
use crate::grid::{Grid, Position};

verus! {

// ---------------------------------------------------------------------
// The state-graph model.
// ---------------------------------------------------------------------

/// One search-graph node: a position, a facing direction (as an index,
/// see `dir_index`), and the run of consecutive steps already taken in
/// that direction to reach the position.
pub ghost struct SearchState {
    pub x: int,
    pub y: int,
    pub d: int,
    pub r: int,
}

/// Everything the state graph depends on: the grid's size and cells, the
/// origin, and the two run-length bounds.
pub ghost struct SearchCtx {
    pub w: int,
    pub h: int,
    pub min_run: int,
    pub max_run: int,
    pub cells: Seq<u32>,
    pub ox: int,
    pub oy: int,
}

/// The context a call of `solve` works under.
pub open spec fn search_ctx(
    grid: &Grid<u32>,
    origin: Position,
    min_run: usize,
    max_run: usize,
) -> SearchCtx {
    SearchCtx {
        w: grid.spec_size().0 as int,
        h: grid.spec_size().1 as int,
        min_run: min_run as int,
        max_run: max_run as int,
        cells: grid.contents(),
        ox: origin.0 as int,
        oy: origin.1 as int,
    }
}

/// A well-formed context: a non-empty grid with one cell per position,
/// the origin inside it, and ordered run bounds.
pub open spec fn ctx_wf(c: SearchCtx) -> bool {
    &&& c.w >= 1
    &&& c.h >= 1
    &&& 1 <= c.min_run <= c.max_run
    &&& c.cells.len() == c.w * c.h
    &&& 0 <= c.ox < c.w
    &&& 0 <= c.oy < c.h
}

/// How many states the graph has: one per position, direction and run in
/// `[0, max_run]`.
pub open spec fn state_count(c: SearchCtx) -> int {
    c.w * c.h * 4 * (c.max_run + 1)
}

/// The column displacement of direction `d` (0 left, 1 right, 2 up, 3
/// down).
pub open spec fn dir_dx(d: int) -> int {
    if d == 0 {
        -1
    } else if d == 1 {
        1
    } else {
        0
    }
}

/// The row displacement of direction `d`.
pub open spec fn dir_dy(d: int) -> int {
    if d == 2 {
        -1
    } else if d == 3 {
        1
    } else {
        0
    }
}

/// Whether directions `d` and `d2` lie on different axes, so that a move
/// from `d` to `d2` is a 90-degree turn.
pub open spec fn turn_between(d: int, d2: int) -> bool {
    (d <= 1) != (d2 <= 1)
}

/// Whether `s` is a node of the state graph under `c`.
pub open spec fn valid_state(c: SearchCtx, s: SearchState) -> bool {
    &&& 0 <= s.x < c.w
    &&& 0 <= s.y < c.h
    &&& 0 <= s.d < 4
    &&& 0 <= s.r <= c.max_run
}

/// The flat index of state `s` in the best-cost table.
pub open spec fn state_pos(c: SearchCtx, s: SearchState) -> int {
    ((s.y * c.w + s.x) * 4 + s.d) * (c.max_run + 1) + s.r
}

/// The entry cost of the cell at `(x, y)`.
pub open spec fn cell_at(c: SearchCtx, x: int, y: int) -> int {
    c.cells[y * c.w + x] as int
}

/// The edge relation of the state graph: from `s`, a step onto the
/// adjacent cell in direction `t.d` reaches `t` either by continuing
/// straight (same direction, run grown by one, capped by `max_run`
/// through `t`'s validity) or by turning onto the other axis (run reset
/// to one), a turn being allowed only with `min_run` straight steps
/// completed or from a start state with run zero.
pub open spec fn edge(c: SearchCtx, s: SearchState, t: SearchState) -> bool {
    &&& valid_state(c, s)
    &&& valid_state(c, t)
    &&& t.x == s.x + dir_dx(t.d)
    &&& t.y == s.y + dir_dy(t.d)
    &&& ((t.d == s.d && t.r == s.r + 1) || (turn_between(s.d, t.d) && t.r == 1 && (s.r == 0
        || s.r >= c.min_run)))
}

/// The synthetic start state for direction `d`: at the origin with no
/// step taken yet.
pub open spec fn start_state(c: SearchCtx, d: int) -> SearchState {
    SearchState { x: c.ox, y: c.oy, d: d, r: 0 }
}

/// A best-cost table has one entry per state.
pub open spec fn table_wf(c: SearchCtx, t: Seq<Option<u64>>) -> bool {
    t.len() == state_count(c)
}

/// Every start entry holds exactly cost zero.
pub open spec fn starts_pinned(c: SearchCtx, t: Seq<Option<u64>>) -> bool {
    forall|d: int| 0 <= d < 4 ==> t[state_pos(c, #[trigger] start_state(c, d))] == Some(0u64)
}

/// Every start entry holds at most cost zero.
pub open spec fn starts_bounded(c: SearchCtx, t: Seq<Option<u64>>) -> bool {
    forall|d: int|
        0 <= d < 4 ==> le_opt(t[state_pos(c, #[trigger] start_state(c, d))], Some(0u64))
}

/// Every edge of the state graph is relaxed: the target's entry is at
/// most the source's entry plus the target cell's cost.
pub open spec fn relaxed(c: SearchCtx, t: Seq<Option<u64>>) -> bool {
    forall|s: SearchState, t2: SearchState|
        #[trigger] edge(c, s, t2) ==> le_opt_plus(
            t[state_pos(c, t2)],
            t[state_pos(c, s)],
            cell_at(c, t2.x, t2.y),
        )
}

/// A consistent table: well-formed, start entries at most zero, every
/// edge relaxed. Any path's accumulated cost bounds such a table's entry
/// at the path's final state from above.
pub open spec fn consistent(c: SearchCtx, t: Seq<Option<u64>>) -> bool {
    table_wf(c, t) && starts_bounded(c, t) && relaxed(c, t)
}

/// `t` lies above every consistent table pointwise.
pub open spec fn dominates(c: SearchCtx, t: Seq<Option<u64>>) -> bool {
    forall|g: Seq<Option<u64>>|
        #[trigger] consistent(c, g) ==> forall|i: int|
            0 <= i < t.len() ==> le_opt(g[i], #[trigger] t[i])
}

/// The solver's defining property: the table is itself consistent and
/// dominates every consistent table. Such a table is unique (see
/// `lemma_solution_table_unique`), so this pins every entry down.
pub open spec fn solution_table(c: SearchCtx, t: Seq<Option<u64>>) -> bool {
    consistent(c, t) && dominates(c, t)
}

/// A state in which the path may stop on the destination `(gx, gy)`: it
/// has completed at least `min_run` consecutive steps.
pub open spec fn goal_state(c: SearchCtx, s: SearchState, gx: int, gy: int) -> bool {
    valid_state(c, s) && s.x == gx && s.y == gy && s.r >= c.min_run
}

/// `r` is the least entry among the goal states of `(gx, gy)` in `t`, or
/// `None` when every goal state's entry is unknown.
pub open spec fn is_goal_best(
    c: SearchCtx,
    t: Seq<Option<u64>>,
    gx: int,
    gy: int,
    r: Option<u64>,
) -> bool {
    match r {
        Option::None => forall|s: SearchState|
            #[trigger] goal_state(c, s, gx, gy) ==> t[state_pos(c, s)] is None,
        Option::Some(v) => {
            &&& exists|s: SearchState|
                #[trigger] goal_state(c, s, gx, gy) && t[state_pos(c, s)] == Some(v)
            &&& forall|s: SearchState|
                #[trigger] goal_state(c, s, gx, gy) ==> le_opt(Some(v), t[state_pos(c, s)])
        },
    }
}

/// The largest cell cost of the grid.
pub open spec fn cells_max(s: Seq<u32>) -> int
    decreases s.len(),
{
    if s.len() == 0 {
        0
    } else {
        let rest = cells_max(s.drop_last());
        if s.last() as int > rest {
            s.last() as int
        } else {
            rest
        }
    }
}

/// The inputs on which the solver refuses to run: the state table could
/// not be addressed, or an accumulated cost could pass the representable
/// range (every stored cost stays at or below `state_count * cells_max`).
pub open spec fn solve_overflows(c: SearchCtx) -> bool {
    ||| state_count(c) > usize::MAX
    ||| state_count(c) + 1 > u64::MAX
    ||| (state_count(c) + 1) * cells_max(c.cells) > u64::MAX
}

/// Every finite entry of the table is at most the count of finite
/// entries times the largest cell cost. Each relaxation update keeps
/// this, which bounds all stored costs by `state_count * cells_max`.
pub open spec fn values_bounded(c: SearchCtx, t: Seq<Option<u64>>) -> bool {
    forall|i: int|
        0 <= i < t.len() ==> (#[trigger] t[i] matches Option::Some(v) ==> v as int
            <= finite_count(t) * cells_max(c.cells))
}

/// The weight given to unknown entries by the termination measure: above
/// every cost the table can hold.
pub open spec fn measure_cap(c: SearchCtx) -> int {
    state_count(c) * cells_max(c.cells) + 1
}

// ---------------------------------------------------------------------
// Arithmetic facts about the flat state indexing.
// ---------------------------------------------------------------------

/// The largest cell cost lies within `u32`'s range.
pub proof fn lemma_cells_max_in_range(s: Seq<u32>)
    ensures
        0 <= cells_max(s) <= u32::MAX,
    decreases s.len(),
{
    if s.len() > 0 {
        lemma_cells_max_in_range(s.drop_last());
    }
}

/// Every cell of the seq of cells is at most `cells_max`.
pub proof fn lemma_cells_max_ge(s: Seq<u32>, i: int)
    requires
        0 <= i < s.len(),
    ensures
        s[i] as int <= cells_max(s),
        cells_max(s) >= 0,
    decreases s.len(),
{
    if i == s.len() - 1 {
        lemma_cells_max_nonneg(s.drop_last());
    } else {
        lemma_cells_max_ge(s.drop_last(), i);
    }
}

/// The largest cell cost is non-negative.
proof fn lemma_cells_max_nonneg(s: Seq<u32>)
    ensures
        cells_max(s) >= 0,
    decreases s.len(),
{
    if s.len() > 0 {
        lemma_cells_max_nonneg(s.drop_last());
    }
}

/// A valid position's flat cell index addresses one of the grid's
/// `w * h` cells.
proof fn lemma_cell_index_bounds(c: SearchCtx, x: int, y: int)
    requires
        ctx_wf(c),
        0 <= x < c.w,
        0 <= y < c.h,
    ensures
        0 <= y * c.w + x < c.cells.len(),
{
    assert(0 <= y * c.w + x < c.w * c.h) by (nonlinear_arith)
        requires
            0 <= x < c.w,
            0 <= y < c.h,
    {}
}

/// A valid state's flat index addresses one of the `state_count` table
/// entries.
pub proof fn lemma_state_pos_bounds(c: SearchCtx, s: SearchState)
    requires
        ctx_wf(c),
        valid_state(c, s),
    ensures
        0 <= state_pos(c, s) < state_count(c),
{
    assert(0 <= ((s.y * c.w + s.x) * 4 + s.d) * (c.max_run + 1) + s.r < c.w * c.h * 4 * (c.max_run
        + 1)) by (nonlinear_arith)
        requires
            0 <= s.x < c.w,
            0 <= s.y < c.h,
            0 <= s.d < 4,
            0 <= s.r <= c.max_run,
    {}
}

/// The flat index is injective over valid states: distinct states never
/// share a table entry.
proof fn lemma_state_pos_injective(c: SearchCtx, s: SearchState, t: SearchState)
    requires
        ctx_wf(c),
        valid_state(c, s),
        valid_state(c, t),
        state_pos(c, s) == state_pos(c, t),
    ensures
        s.x == t.x && s.y == t.y && s.d == t.d && s.r == t.r,
{
    assert((s.y * c.w + s.x) * 4 + s.d == (t.y * c.w + t.x) * 4 + t.d && s.r == t.r)
        by (nonlinear_arith)
        requires
            0 <= s.r <= c.max_run,
            0 <= t.r <= c.max_run,
            ((s.y * c.w + s.x) * 4 + s.d) * (c.max_run + 1) + s.r == ((t.y * c.w + t.x) * 4 + t.d)
                * (c.max_run + 1) + t.r,
    {}
    assert(s.y * c.w + s.x == t.y * c.w + t.x && s.d == t.d) by (nonlinear_arith)
        requires
            0 <= s.d < 4,
            0 <= t.d < 4,
            (s.y * c.w + s.x) * 4 + s.d == (t.y * c.w + t.x) * 4 + t.d,
    {}
    assert(s.x == t.x && s.y == t.y) by (nonlinear_arith)
        requires
            0 <= s.x < c.w,
            0 <= t.x < c.w,
            s.y * c.w + s.x == t.y * c.w + t.x,
    {}
}

// ---------------------------------------------------------------------
// Directions and bounded position arithmetic.
// ---------------------------------------------------------------------

/// One of the four cardinal unit directions a path may face.
#[derive(Debug, Eq, PartialEq, Copy, Clone, Structural)]
pub enum Direction {
    Left,
    Right,
    Up,
    Down,
}

/// The index under which a direction is filed in the best-cost table.
pub open spec fn dir_index(d: Direction) -> int {
    match d {
        Direction::Left => 0,
        Direction::Right => 1,
        Direction::Up => 2,
        Direction::Down => 3,
    }
}

impl Direction {
    /// The direction filed under index `d`.
    pub fn from_index(d: usize) -> (r: Direction)
        requires
            d < 4,
        ensures
            dir_index(r) == d as int,
    {
        if d == 0 {
            Direction::Left
        } else if d == 1 {
            Direction::Right
        } else if d == 2 {
            Direction::Up
        } else {
            Direction::Down
        }
    }

    /// The index under which this direction is filed, as a machine
    /// integer.
    pub fn index(&self) -> (r: usize)
        ensures
            r as int == dir_index(*self),
    {
        match self {
            Direction::Left => 0,
            Direction::Right => 1,
            Direction::Up => 2,
            Direction::Down => 3,
        }
    }

    /// The unit displacement `(column, row)` of one step in this
    /// direction.
    pub fn vector(&self) -> (r: (isize, isize))
        ensures
            r.0 as int == dir_dx(dir_index(*self)),
            r.1 as int == dir_dy(dir_index(*self)),
    {
        match self {
            Direction::Left => (-1, 0),
            Direction::Right => (1, 0),
            Direction::Up => (0, -1),
            Direction::Down => (0, 1),
        }
    }

    /// The two directions on the other axis: exactly those a turn may
    /// select.
    pub fn adjacent(&self) -> (r: [Direction; 2])
        ensures
            turn_between(dir_index(*self), dir_index(r[0])),
            turn_between(dir_index(*self), dir_index(r[1])),
            forall|d2: int|
                0 <= d2 < 4 && turn_between(dir_index(*self), d2) ==> d2 == dir_index(r[0])
                    || d2 == dir_index(r[1]),
    {
        match self {
            Direction::Left => [Direction::Up, Direction::Down],
            Direction::Right => [Direction::Up, Direction::Down],
            Direction::Up => [Direction::Left, Direction::Right],
            Direction::Down => [Direction::Left, Direction::Right],
        }
    }
}

/// Displaces `position` by `vector`, reporting `None` when the result
/// would leave the box `[0, size.0) x [0, size.1)` on either axis.
pub fn position_checked_add_signed(
    position: (usize, usize),
    vector: (isize, isize),
    size: (usize, usize),
) -> (r: Option<(usize, usize)>)
    ensures
        r matches Some(p) ==> {
            &&& p.0 as int == position.0 + vector.0
            &&& p.1 as int == position.1 + vector.1
            &&& p.0 < size.0
            &&& p.1 < size.1
        },
        r is None ==> !(0 <= position.0 + vector.0 < size.0 && 0 <= position.1 + vector.1
            < size.1),
    {
    let x = match position.0.checked_add_signed(vector.0) {
        Some(x) => x,
        None => {
            return None;
        },
    };
    let y = match position.1.checked_add_signed(vector.1) {
        Some(y) => y,
        None => {
            return None;
        },
    };
    let added_position = (x, y);
    match added_position.0 < size.0 && added_position.1 < size.1 {
        true => Some(added_position),
        false => None,
    }
}

/// Lowers `apply` into the referenced best-cost entry when it improves
/// on it (an unknown entry counts as improved on), and reports whether
/// anything changed.
pub fn min_changed(object: &mut Option<u64>, apply: u64) -> (changed: bool)
    ensures
        match *old(object) {
            Option::Some(x) => {
                &&& changed == (apply < x)
                &&& *final(object) == if apply < x {
                    Option::Some(apply)
                } else {
                    Option::Some(x)
                }
            },
            Option::None => changed && *final(object) == Option::Some(apply),
        },
{
    match object {
        Option::Some(x) => {
            let change = *x > apply;
            if change {
                *x = apply;
            }
            change
        },
        Option::None => {
            *object = Some(apply);
            true
        },
    }
}

// ---------------------------------------------------------------------
// Relaxation steps.
// ---------------------------------------------------------------------

/// The largest cell cost of the grid.
fn max_cell(grid: &Grid<u32>) -> (m: u32)
    requires
        grid.wf(),
    ensures
        m as int == cells_max(grid.contents()),
{
    let cells = grid.cells();
    let mut m: u32 = 0;
    let mut k: usize = 0;
    while k < cells.len()
        invariant
            k <= cells@.len(),
            cells@ == grid.contents(),
            m as int == cells_max(grid.contents().take(k as int)),
        decreases cells@.len() - k,
    {
        let v = cells[k];
        proof {
            assert(grid.contents().take(k as int + 1).drop_last() =~= grid.contents().take(
                k as int,
            ));
        }
        if v > m {
            m = v;
        }
        k = k + 1;
    }
    proof {
        assert(grid.contents().take(cells@.len() as int) =~= grid.contents());
    }
    m
}

/// The flat table index of the state `(x, y, d, rl)`.
fn state_index(
    w: usize,
    max_run: usize,
    x: usize,
    y: usize,
    d: usize,
    rl: usize,
    Ghost(c): Ghost<SearchCtx>,
) -> (i: usize)
    requires
        ctx_wf(c),
        c.w == w as int,
        c.max_run == max_run as int,
        x < w,
        (y as int) < c.h,
        d < 4,
        rl <= max_run,
        state_count(c) <= usize::MAX,
    ensures
        i as int == state_pos(
            c,
            SearchState { x: x as int, y: y as int, d: d as int, r: rl as int },
        ),
        i < state_count(c),
{
    proof {
        let s = SearchState { x: x as int, y: y as int, d: d as int, r: rl as int };
        lemma_state_pos_bounds(c, s);
        assert((max_run as int) + 1 <= state_count(c)) by (nonlinear_arith)
            requires
                c.w >= 1,
                c.h >= 1,
                c.max_run >= 0,
                c.max_run == max_run as int,
        {}
        assert({
            let a = (y as int) * (w as int) + (x as int);
            let b = a * 4 + (d as int);
            &&& 0 <= a <= b
            &&& b <= b * ((max_run as int) + 1) + (rl as int)
        }) by (nonlinear_arith)
            requires
                0 <= x as int,
                0 <= y as int,
                0 <= d as int,
                0 <= rl as int,
                0 <= w as int,
                0 <= max_run as int,
        {}
    }
    ((y * w + x) * 4 + d) * (max_run + 1) + rl
}

/// The cost of the cell at `(x, y)`.
fn cell_value(grid: &Grid<u32>, x: usize, y: usize, Ghost(c): Ghost<SearchCtx>) -> (r: u32)
    requires
        grid.wf(),
        ctx_wf(c),
        c.w == grid.spec_size().0 as int,
        c.h == grid.spec_size().1 as int,
        c.cells == grid.contents(),
        (x as int) < c.w,
        (y as int) < c.h,
    ensures
        r as int == cell_at(c, x as int, y as int),
{
    match grid.get(Position(x, y)) {
        Some(v) => *v,
        None => {
            proof {
                assert(false);
            }
            0
        },
    }
}

/// One relaxation update: writing the improved cost `cand` into the
/// target entry of an edge whose source entry holds `Some(v)` keeps
/// every loop invariant of the solver and strictly shrinks the table's
/// measure.
proof fn lemma_update_invariants(
    c: SearchCtx,
    t: Seq<Option<u64>>,
    s: SearchState,
    t2: SearchState,
    v: u64,
    cand: u64,
)
    requires
        ctx_wf(c),
        table_wf(c, t),
        values_bounded(c, t),
        dominates(c, t),
        starts_pinned(c, t),
        edge(c, s, t2),
        t[state_pos(c, s)] == Some(v),
        cand == v + cell_at(c, t2.x, t2.y),
        !le_opt(t[state_pos(c, t2)], Some(cand)),
    ensures
        table_wf(c, t.update(state_pos(c, t2), Some(cand))),
        values_bounded(c, t.update(state_pos(c, t2), Some(cand))),
        dominates(c, t.update(state_pos(c, t2), Some(cand))),
        starts_pinned(c, t.update(state_pos(c, t2), Some(cand))),
        table_measure(t.update(state_pos(c, t2), Some(cand)), measure_cap(c)) < table_measure(
            t,
            measure_cap(c),
        ),
{
    let mc = cells_max(c.cells);
    let si = state_pos(c, s);
    let ti = state_pos(c, t2);
    let u = t.update(ti, Some(cand));
    let fc = finite_count(t);
    let fcu = finite_count(u);
    lemma_state_pos_bounds(c, s);
    lemma_state_pos_bounds(c, t2);
    lemma_cells_max_nonneg(c.cells);
    lemma_cell_index_bounds(c, t2.x, t2.y);
    lemma_cells_max_ge(c.cells, t2.y * c.w + t2.x);
    lemma_finite_count_bounds(t);
    lemma_finite_count_update(t, ti, Some(cand));
    lemma_measure_update(t, measure_cap(c), ti, Some(cand));

    // The source entry is bounded by the invariant.
    assert(v as int <= fc * mc);

    // values_bounded for the written entry, and for every other one.
    if t[ti] is Some {
        assert(fcu == fc);
        // The update only happens on strict improvement.
        assert(cand < t[ti]->0);
        assert(t[ti]->0 as int <= fc * mc);
    } else {
        assert(fcu == fc + 1);
        assert(cand as int <= fc * mc + mc);
        assert(fc * mc + mc == (fc + 1) * mc) by (nonlinear_arith) {}
    }
    assert forall|i: int| 0 <= i < u.len() implies (#[trigger] u[i] matches Option::Some(w2)
        ==> w2 as int <= fcu * mc) by {
        if u[i] is Some {
            if i != ti {
                assert(t[i] == u[i]);
                assert(u[i]->0 as int <= fc * mc);
            }
            assert(fc * mc <= fcu * mc) by (nonlinear_arith)
                requires
                    fc <= fcu,
                    mc >= 0,
            {}
        }
    }

    // The measure strictly shrinks: the new weight sits under the old.
    let cap = measure_cap(c);
    if t[ti] is None {
        // A fresh entry: the count of finite entries was below the table's
        // length, so the new cost stays under the cap.
        lemma_finite_count_update(t, ti, Option::None);
        lemma_finite_count_bounds(t.update(ti, Option::None));
        assert(finite_count(t.update(ti, Option::None)) == fc);
        assert(fc < t.len()) by {
            lemma_finite_count_update(t, ti, Some(0u64));
            lemma_finite_count_bounds(t.update(ti, Some(0u64)));
        }
        assert((fc + 1) * mc <= state_count(c) * mc) by (nonlinear_arith)
            requires
                fc + 1 <= state_count(c),
                mc >= 0,
        {}
        assert(wt(Some(cand), cap) < wt(t[ti], cap));
    } else {
        assert(wt(Some(cand), cap) < wt(t[ti], cap));
    }

    // Start entries stay pinned: an edge target always has a run of at
    // least one, so it is never a start state.
    assert forall|d: int| 0 <= d < 4 implies u[state_pos(
        c,
        #[trigger] start_state(c, d),
    )] == Some(0u64) by {
        let sd = start_state(c, d);
        assert(valid_state(c, sd));
        lemma_state_pos_bounds(c, sd);
        if state_pos(c, sd) == ti {
            lemma_state_pos_injective(c, sd, t2);
            assert(t2.r >= 1);
            assert(false);
        }
    }

    // Domination survives: any consistent table is relaxed along the
    // updated edge, and sits under the source entry.
    assert forall|g: Seq<Option<u64>>| #[trigger] consistent(c, g) implies forall|i: int|
        0 <= i < u.len() ==> le_opt(g[i], #[trigger] u[i]) by {
        assert forall|i: int| 0 <= i < u.len() implies le_opt(g[i], #[trigger] u[i]) by {
            assert(le_opt(g[i], t[i]));
            if i == ti {
                assert(le_opt_plus(
                    g[state_pos(c, t2)],
                    g[state_pos(c, s)],
                    cell_at(c, t2.x, t2.y),
                ));
                assert(le_opt(g[si], t[si]));
            }
        }
    }
}

/// Relaxes one edge of the state graph: improves the target entry `ti`
/// with the source's known cost `v` plus the target cell's cost `cc`.
fn relax_edge(
    table: &mut Vec<Option<u64>>,
    cc: u32,
    si: usize,
    ti: usize,
    v: u64,
    Ghost(c): Ghost<SearchCtx>,
    Ghost(s): Ghost<SearchState>,
    Ghost(t2): Ghost<SearchState>,
) -> (changed: bool)
    requires
        ctx_wf(c),
        table_wf(c, old(table)@),
        values_bounded(c, old(table)@),
        dominates(c, old(table)@),
        starts_pinned(c, old(table)@),
        edge(c, s, t2),
        si as int == state_pos(c, s),
        ti as int == state_pos(c, t2),
        old(table)@[si as int] == Some(v),
        cc as int == cell_at(c, t2.x, t2.y),
        state_count(c) + 1 <= u64::MAX,
        (state_count(c) + 1) * cells_max(c.cells) <= u64::MAX,
    ensures
        table_wf(c, final(table)@),
        values_bounded(c, final(table)@),
        dominates(c, final(table)@),
        starts_pinned(c, final(table)@),
        !changed ==> final(table)@ == old(table)@,
        le_opt_plus(final(table)@[ti as int], Some(v), cell_at(c, t2.x, t2.y)),
        changed ==> table_measure(final(table)@, measure_cap(c)) < table_measure(
            old(table)@,
            measure_cap(c),
        ),
        forall|j: int|
            0 <= j < old(table)@.len() && j != ti as int ==> final(table)@[j] == old(table)@[j],
{
    proof {
        lemma_state_pos_bounds(c, s);
        lemma_state_pos_bounds(c, t2);
        lemma_cells_max_nonneg(c.cells);
        lemma_cell_index_bounds(c, t2.x, t2.y);
        lemma_cells_max_ge(c.cells, t2.y * c.w + t2.x);
        lemma_finite_count_bounds(old(table)@);
        let fc = finite_count(old(table)@);
        let mc = cells_max(c.cells);
        assert(v as int <= fc * mc);
        assert(fc * mc + mc <= (state_count(c) + 1) * mc) by (nonlinear_arith)
            requires
                fc + 1 <= state_count(c) + 1,
                mc >= 0,
        {}
    }
    let cand = v + (cc as u64);
    let changed = min_changed(&mut table[ti], cand);
    proof {
        if changed {
            lemma_update_invariants(c, old(table)@, s, t2, v, cand);
            assert(final(table)@ =~= old(table)@.update(ti as int, Some(cand)));
        } else {
            assert(final(table)@ =~= old(table)@);
        }
    }
    changed
}

/// The context `c` describes exactly this grid.
spec fn ctx_matches(c: SearchCtx, grid: &Grid<u32>) -> bool {
    &&& ctx_wf(c)
    &&& grid.wf()
    &&& c.w == grid.spec_size().0 as int
    &&& c.h == grid.spec_size().1 as int
    &&& c.cells == grid.contents()
}

/// The state table can be addressed and no accumulated cost can leave
/// `u64`: the negation of `solve_overflows`.
spec fn fits(c: SearchCtx) -> bool {
    &&& state_count(c) <= usize::MAX
    &&& state_count(c) + 1 <= u64::MAX
    &&& (state_count(c) + 1) * cells_max(c.cells) <= u64::MAX
}

/// What every relaxation step preserves about the best-cost table.
spec fn pass_invariant(c: SearchCtx, t: Seq<Option<u64>>) -> bool {
    &&& table_wf(c, t)
    &&& values_bounded(c, t)
    &&& dominates(c, t)
    &&& starts_pinned(c, t)
}

/// Every edge out of `s` is relaxed in `t`.
spec fn state_done(c: SearchCtx, t: Seq<Option<u64>>, s: SearchState) -> bool {
    forall|t2: SearchState|
        #[trigger] edge(c, s, t2) ==> le_opt_plus(
            t[state_pos(c, t2)],
            t[state_pos(c, s)],
            cell_at(c, t2.x, t2.y),
        )
}

/// The state one straight continuation step from `s` reaches.
spec fn straight_target(s: SearchState) -> SearchState {
    SearchState { x: s.x + dir_dx(s.d), y: s.y + dir_dy(s.d), d: s.d, r: s.r + 1 }
}

/// The state one turn step from `s` in direction `d2` reaches.
spec fn turn_target(s: SearchState, d2: int) -> SearchState {
    SearchState { x: s.x + dir_dx(d2), y: s.y + dir_dy(d2), d: d2, r: 1 }
}

/// Relaxes the straight-continuation edge out of the state
/// `(x, y, d, rl)`, whose entry holds `Some(v)`, when its target lies on
/// the grid.
fn relax_straight(
    table: &mut Vec<Option<u64>>,
    grid: &Grid<u32>,
    x: usize,
    y: usize,
    d: usize,
    rl: usize,
    max_run: usize,
    si: usize,
    v: u64,
    Ghost(c): Ghost<SearchCtx>,
    Ghost(s0): Ghost<SearchState>,
) -> (changed: bool)
    requires
        ctx_matches(c, grid),
        c.max_run == max_run as int,
        fits(c),
        pass_invariant(c, old(table)@),
        valid_state(c, s0),
        s0.x == x as int,
        s0.y == y as int,
        s0.d == d as int,
        s0.r == rl as int,
        rl < max_run,
        si as int == state_pos(c, s0),
        old(table)@[si as int] == Some(v),
    ensures
        pass_invariant(c, final(table)@),
        table_measure(final(table)@, measure_cap(c)) <= table_measure(
            old(table)@,
            measure_cap(c),
        ),
        changed ==> table_measure(final(table)@, measure_cap(c)) < table_measure(
            old(table)@,
            measure_cap(c),
        ),
        !changed ==> final(table)@ == old(table)@,
        changed ==> valid_state(c, straight_target(s0)),
        !changed && valid_state(c, straight_target(s0)) ==> le_opt_plus(
            final(table)@[state_pos(c, straight_target(s0))],
            Some(v),
            cell_at(c, straight_target(s0).x, straight_target(s0).y),
        ),
        forall|j: int|
            0 <= j < old(table)@.len() && j != state_pos(c, straight_target(s0))
                ==> final(table)@[j] == old(table)@[j],
{
    let dir = Direction::from_index(d);
    let size = grid.size();
    match position_checked_add_signed((x, y), dir.vector(), (size.0, size.1)) {
        Some((nx, ny)) => {
            let ti = state_index(size.0, max_run, nx, ny, d, rl + 1, Ghost(c));
            let cc = cell_value(grid, nx, ny, Ghost(c));
            let ghost t2 = straight_target(s0);
            proof {
                assert(valid_state(c, t2));
                assert(edge(c, s0, t2));
            }
            relax_edge(table, cc, si, ti, v, Ghost(c), Ghost(s0), Ghost(t2))
        },
        None => {
            proof {
                assert(!valid_state(c, straight_target(s0)));
            }
            false
        },
    }
}

/// Relaxes the turn edge out of the state `(x, y, s0.d, s0.r)` into the
/// orthogonal direction `dir2`, when its target lies on the grid. The
/// source entry holds `Some(v)` and its run permits a turn.
fn relax_turn(
    table: &mut Vec<Option<u64>>,
    grid: &Grid<u32>,
    x: usize,
    y: usize,
    dir2: Direction,
    max_run: usize,
    si: usize,
    v: u64,
    Ghost(c): Ghost<SearchCtx>,
    Ghost(s0): Ghost<SearchState>,
) -> (changed: bool)
    requires
        ctx_matches(c, grid),
        c.max_run == max_run as int,
        fits(c),
        pass_invariant(c, old(table)@),
        valid_state(c, s0),
        s0.x == x as int,
        s0.y == y as int,
        s0.r == 0 || s0.r >= c.min_run,
        turn_between(s0.d, dir_index(dir2)),
        si as int == state_pos(c, s0),
        old(table)@[si as int] == Some(v),
    ensures
        pass_invariant(c, final(table)@),
        table_measure(final(table)@, measure_cap(c)) <= table_measure(
            old(table)@,
            measure_cap(c),
        ),
        changed ==> table_measure(final(table)@, measure_cap(c)) < table_measure(
            old(table)@,
            measure_cap(c),
        ),
        !changed ==> final(table)@ == old(table)@,
        changed ==> valid_state(c, turn_target(s0, dir_index(dir2))),
        !changed && valid_state(c, turn_target(s0, dir_index(dir2))) ==> le_opt_plus(
            final(table)@[state_pos(c, turn_target(s0, dir_index(dir2)))],
            Some(v),
            cell_at(
                c,
                turn_target(s0, dir_index(dir2)).x,
                turn_target(s0, dir_index(dir2)).y,
            ),
        ),
        forall|j: int|
            0 <= j < old(table)@.len() && j != state_pos(c, turn_target(s0, dir_index(dir2)))
                ==> final(table)@[j] == old(table)@[j],
{
    let size = grid.size();
    match position_checked_add_signed((x, y), dir2.vector(), (size.0, size.1)) {
        Some((nx, ny)) => {
            let ti = state_index(size.0, max_run, nx, ny, dir2.index(), 1, Ghost(c));
            let cc = cell_value(grid, nx, ny, Ghost(c));
            let ghost t2 = turn_target(s0, dir_index(dir2));
            proof {
                assert(valid_state(c, t2));
                assert(edge(c, s0, t2));
            }
            relax_edge(table, cc, si, ti, v, Ghost(c), Ghost(s0), Ghost(t2))
        },
        None => {
            proof {
                assert(!valid_state(c, turn_target(s0, dir_index(dir2))));
            }
            false
        },
    }
}

/// Attempts every transition out of the state `(x, y, d, rl)`: the
/// straight continuation while the run is below `max_run`, and the two
/// orthogonal turns once the run permits one. When nothing changed, every
/// edge out of the state is relaxed.
fn relax_from(
    table: &mut Vec<Option<u64>>,
    grid: &Grid<u32>,
    x: usize,
    y: usize,
    d: usize,
    rl: usize,
    min_run: usize,
    max_run: usize,
    Ghost(c): Ghost<SearchCtx>,
) -> (changed: bool)
    requires
        ctx_matches(c, grid),
        c.min_run == min_run as int,
        c.max_run == max_run as int,
        fits(c),
        pass_invariant(c, old(table)@),
        (x as int) < c.w,
        (y as int) < c.h,
        d < 4,
        rl <= max_run,
    ensures
        pass_invariant(c, final(table)@),
        table_measure(final(table)@, measure_cap(c)) <= table_measure(
            old(table)@,
            measure_cap(c),
        ),
        changed ==> table_measure(final(table)@, measure_cap(c)) < table_measure(
            old(table)@,
            measure_cap(c),
        ),
        !changed ==> final(table)@ == old(table)@ && state_done(
            c,
            final(table)@,
            SearchState { x: x as int, y: y as int, d: d as int, r: rl as int },
        ),
{
    let ghost s0 = SearchState { x: x as int, y: y as int, d: d as int, r: rl as int };
    let size = grid.size();
    let si = state_index(size.0, max_run, x, y, d, rl, Ghost(c));
    let entry = table[si];
    match entry {
        None => {
            proof {
                assert forall|t2: SearchState| #[trigger] edge(c, s0, t2) implies le_opt_plus(
                    table@[state_pos(c, t2)],
                    table@[state_pos(c, s0)],
                    cell_at(c, t2.x, t2.y),
                ) by {
                    assert(table@[state_pos(c, s0)] is None);
                }
            }
            false
        },
        Some(v) => {
            let mut changed = false;
            if rl < max_run {
                let ch = relax_straight(
                    table,
                    grid,
                    x,
                    y,
                    d,
                    rl,
                    max_run,
                    si,
                    v,
                    Ghost(c),
                    Ghost(s0),
                );
                changed = changed || ch;
            }
            if rl == 0 || rl >= min_run {
                let dir = Direction::from_index(d);
                let adj = dir.adjacent();
                proof {
                    // The source entry survives updates of other entries:
                    // an edge target carries a different position.
                    if table@[si as int] != Some(v) {
                        lemma_state_pos_injective(c, s0, straight_target(s0));
                        assert(false);
                    }
                }
                let ch = relax_turn(
                    table,
                    grid,
                    x,
                    y,
                    adj[0],
                    max_run,
                    si,
                    v,
                    Ghost(c),
                    Ghost(s0),
                );
                changed = changed || ch;
                proof {
                    if table@[si as int] != Some(v) {
                        lemma_state_pos_injective(c, s0, turn_target(s0, dir_index(adj@[0])));
                        assert(false);
                    }
                }
                let ch2 = relax_turn(
                    table,
                    grid,
                    x,
                    y,
                    adj[1],
                    max_run,
                    si,
                    v,
                    Ghost(c),
                    Ghost(s0),
                );
                changed = changed || ch2;
            }
            proof {
                if !changed {
                    assert forall|t2: SearchState| #[trigger] edge(c, s0, t2) implies le_opt_plus(
                        table@[state_pos(c, t2)],
                        table@[state_pos(c, s0)],
                        cell_at(c, t2.x, t2.y),
                    ) by {
                        if t2.d == s0.d && t2.r == s0.r + 1 {
                            assert(t2 == straight_target(s0));
                        } else {
                            assert(turn_between(s0.d, t2.d) && t2.r == 1);
                            assert(t2 == turn_target(s0, t2.d));
                        }
                    }
                }
            }
            changed
        },
    }
}

/// Scan order over states: `(sy, sx, sd, sr)` comes strictly before
/// `(y, x, d, r)`.
spec fn lex_before(sy: int, sx: int, sd: int, sr: int, y: int, x: int, d: int, r: int) -> bool {
    ||| sy < y
    ||| (sy == y && (sx < x || (sx == x && (sd < d || (sd == d && sr < r)))))
}

/// Every state the scan has passed already has all its out-edges relaxed.
spec fn prefix_done(c: SearchCtx, t: Seq<Option<u64>>, y: int, x: int, d: int, r: int) -> bool {
    forall|s: SearchState|
        valid_state(c, s) && lex_before(s.y, s.x, s.d, s.r, y, x, d, r) ==> #[trigger] state_done(
            c,
            t,
            s,
        )
}

/// One full relaxation pass over every state in scan order. When the pass
/// changes nothing, the whole table is relaxed — the fixed point.
fn relax_pass(
    table: &mut Vec<Option<u64>>,
    grid: &Grid<u32>,
    min_run: usize,
    max_run: usize,
    Ghost(c): Ghost<SearchCtx>,
) -> (changed: bool)
    requires
        ctx_matches(c, grid),
        c.min_run == min_run as int,
        c.max_run == max_run as int,
        fits(c),
        pass_invariant(c, old(table)@),
    ensures
        pass_invariant(c, final(table)@),
        table_measure(final(table)@, measure_cap(c)) <= table_measure(
            old(table)@,
            measure_cap(c),
        ),
        changed ==> table_measure(final(table)@, measure_cap(c)) < table_measure(
            old(table)@,
            measure_cap(c),
        ),
        !changed ==> final(table)@ == old(table)@ && relaxed(c, final(table)@),
{
    let size = grid.size();
    let w = size.0;
    let h = size.1;
    proof {
        assert((max_run as int) + 1 <= state_count(c)) by (nonlinear_arith)
            requires
                c.w >= 1,
                c.h >= 1,
                c.max_run >= 0,
                c.max_run == max_run as int,
        {}
    }
    let mut changed = false;
    let ghost snap = old(table)@;
    let mut y: usize = 0;
    while y < h
        invariant
            ctx_matches(c, grid),
            c.min_run == min_run as int,
            c.max_run == max_run as int,
            fits(c),
            w as int == c.w,
            h as int == c.h,
            snap == old(table)@,
            pass_invariant(c, table@),
            y <= h,
            table_measure(table@, measure_cap(c)) <= table_measure(snap, measure_cap(c)),
            changed ==> table_measure(table@, measure_cap(c)) < table_measure(
                snap,
                measure_cap(c),
            ),
            !changed ==> table@ == snap && prefix_done(c, table@, y as int, 0, 0, 0),
        decreases h - y,
    {
        let mut x: usize = 0;
        while x < w
            invariant
                ctx_matches(c, grid),
                c.min_run == min_run as int,
                c.max_run == max_run as int,
                fits(c),
                w as int == c.w,
                h as int == c.h,
                snap == old(table)@,
                pass_invariant(c, table@),
                y < h,
                x <= w,
                table_measure(table@, measure_cap(c)) <= table_measure(snap, measure_cap(c)),
                changed ==> table_measure(table@, measure_cap(c)) < table_measure(
                    snap,
                    measure_cap(c),
                ),
                !changed ==> table@ == snap && prefix_done(c, table@, y as int, x as int, 0, 0),
            decreases w - x,
        {
            let mut d: usize = 0;
            while d < 4
                invariant
                    ctx_matches(c, grid),
                    c.min_run == min_run as int,
                    c.max_run == max_run as int,
                    fits(c),
                    w as int == c.w,
                    h as int == c.h,
                    snap == old(table)@,
                    pass_invariant(c, table@),
                    y < h,
                    x < w,
                    d <= 4,
                    table_measure(table@, measure_cap(c)) <= table_measure(
                        snap,
                        measure_cap(c),
                    ),
                    changed ==> table_measure(table@, measure_cap(c)) < table_measure(
                        snap,
                        measure_cap(c),
                    ),
                    !changed ==> table@ == snap && prefix_done(
                        c,
                        table@,
                        y as int,
                        x as int,
                        d as int,
                        0,
                    ),
                decreases 4 - d,
            {
                let mut rl: usize = 0;
                while rl <= max_run
                    invariant
                        ctx_matches(c, grid),
                        c.min_run == min_run as int,
                        c.max_run == max_run as int,
                        fits(c),
                        w as int == c.w,
                        h as int == c.h,
                        snap == old(table)@,
                        pass_invariant(c, table@),
                        y < h,
                        x < w,
                        d < 4,
                        rl <= max_run + 1,
                        table_measure(table@, measure_cap(c)) <= table_measure(
                            snap,
                            measure_cap(c),
                        ),
                        changed ==> table_measure(table@, measure_cap(c)) < table_measure(
                            snap,
                            measure_cap(c),
                        ),
                        !changed ==> table@ == snap && prefix_done(
                            c,
                            table@,
                            y as int,
                            x as int,
                            d as int,
                            rl as int,
                        ),
                    decreases max_run + 1 - rl,
                {
                    let ch = relax_from(
                        table,
                        grid,
                        x,
                        y,
                        d,
                        rl,
                        min_run,
                        max_run,
                        Ghost(c),
                    );
                    proof {
                        if !(changed || ch) {
                            assert forall|s: SearchState|
                                valid_state(c, s) && lex_before(
                                    s.y,
                                    s.x,
                                    s.d,
                                    s.r,
                                    y as int,
                                    x as int,
                                    d as int,
                                    rl as int + 1,
                                ) implies #[trigger] state_done(c, table@, s) by {
                                if !lex_before(
                                    s.y,
                                    s.x,
                                    s.d,
                                    s.r,
                                    y as int,
                                    x as int,
                                    d as int,
                                    rl as int,
                                ) {
                                    assert(s == SearchState {
                                        x: x as int,
                                        y: y as int,
                                        d: d as int,
                                        r: rl as int,
                                    });
                                }
                            }
                        }
                    }
                    changed = changed || ch;
                    proof {
                        assert((max_run as int) + 1 <= state_count(c)) by (nonlinear_arith)
                            requires
                                c.w >= 1,
                                c.h >= 1,
                                c.max_run >= 0,
                                c.max_run == max_run as int,
                        {}
                    }
                    rl = rl + 1;
                }
                proof {
                    if !changed {
                        assert forall|s: SearchState|
                            valid_state(c, s) && lex_before(
                                s.y,
                                s.x,
                                s.d,
                                s.r,
                                y as int,
                                x as int,
                                d as int + 1,
                                0,
                            ) implies #[trigger] state_done(c, table@, s) by {
                            assert(lex_before(
                                s.y,
                                s.x,
                                s.d,
                                s.r,
                                y as int,
                                x as int,
                                d as int,
                                max_run as int + 1,
                            ));
                        }
                    }
                }
                d = d + 1;
            }
            proof {
                if !changed {
                    assert forall|s: SearchState|
                        valid_state(c, s) && lex_before(
                            s.y,
                            s.x,
                            s.d,
                            s.r,
                            y as int,
                            x as int + 1,
                            0,
                            0,
                        ) implies #[trigger] state_done(c, table@, s) by {
                        assert(lex_before(s.y, s.x, s.d, s.r, y as int, x as int, 4, 0));
                    }
                }
            }
            x = x + 1;
        }
        proof {
            if !changed {
                assert forall|s: SearchState|
                    valid_state(c, s) && lex_before(
                        s.y,
                        s.x,
                        s.d,
                        s.r,
                        y as int + 1,
                        0,
                        0,
                        0,
                    ) implies #[trigger] state_done(c, table@, s) by {
                    assert(lex_before(s.y, s.x, s.d, s.r, y as int, c.w, 0, 0));
                }
            }
        }
        y = y + 1;
    }
    proof {
        if !changed {
            assert forall|s: SearchState, t2: SearchState| #[trigger] edge(c, s, t2)
                implies le_opt_plus(
                table@[state_pos(c, t2)],
                table@[state_pos(c, s)],
                cell_at(c, t2.x, t2.y),
            ) by {
                assert(lex_before(s.y, s.x, s.d, s.r, c.h, 0, 0, 0));
                assert(state_done(c, table@, s));
            }
        }
    }
    changed
}

/// The one fatal condition of the solver: on this grid and these run
/// bounds an accumulated cost (or the state table's size) could pass the
/// representable range, so the solver refuses to run rather than risk a
/// silently wrong sum.
#[derive(Debug, Clone, Copy, PartialEq, Eq, Structural)]
pub enum SolveError {
    CostOverflow,
}

/// Computes the minimum total entry cost of any path from `origin` to
/// `destination` that obeys the run constraints, reading each step's cost
/// from the grid cell stepped onto. Returns `Ok(None)` when no such path
/// exists, `Ok(Some(0))` when origin and destination coincide (no step is
/// needed), and `Err(SolveError::CostOverflow)` exactly on the inputs
/// where `solve_overflows` holds.
///
/// On success the answer is the least goal entry of the unique table that
/// is consistent and dominates every consistent table — the fixed point
/// of cost relaxation over the state graph. The `paths` module shows what
/// this characterisation means: the answer is exactly the least cost of
/// any valid path to the destination.
pub fn solve(
    grid: &Grid<u32>,
    origin: Position,
    destination: Position,
    min_run: usize,
    max_run: usize,
) -> (r: Result<Option<u64>, SolveError>)
    requires
        grid.wf(),
        origin.spec_within(grid.spec_size()),
        destination.spec_within(grid.spec_size()),
        1 <= min_run <= max_run,
    ensures
        ({
            let c = search_ctx(grid, origin, min_run, max_run);
            &&& (r is Err <==> solve_overflows(c))
            &&& (match r {
                Result::Ok(a) => if origin == destination {
                    a == Some(0u64)
                } else {
                    exists|t: Seq<Option<u64>>|
                        #[trigger] solution_table(c, t) && values_bounded(c, t) && is_goal_best(
                            c,
                            t,
                            destination.0 as int,
                            destination.1 as int,
                            a,
                        )
                },
                Result::Err(e) => e == SolveError::CostOverflow,
            })
        }),
{
    let ghost c = search_ctx(grid, origin, min_run, max_run);
    let size = grid.size();
    let w = size.0;
    let h = size.1;
    proof {
        assert(ctx_wf(c));
    }

    // Refuse exactly the inputs where the table could not be addressed or
    // an accumulated cost could leave `u64`.
    let runs = match max_run.checked_add(1) {
        Some(x) => x,
        None => {
            proof {
                assert(state_count(c) > usize::MAX) by (nonlinear_arith)
                    requires
                        c.w >= 1,
                        c.h >= 1,
                        c.max_run + 1 > usize::MAX,
                        state_count(c) == c.w * c.h * 4 * (c.max_run + 1),
                {}
            }
            return Err(SolveError::CostOverflow);
        },
    };
    let per_cell = match runs.checked_mul(4) {
        Some(x) => x,
        None => {
            proof {
                assert(state_count(c) > usize::MAX) by (nonlinear_arith)
                    requires
                        c.w >= 1,
                        c.h >= 1,
                        c.max_run >= 0,
                        (c.max_run + 1) * 4 > usize::MAX,
                        state_count(c) == c.w * c.h * 4 * (c.max_run + 1),
                {}
            }
            return Err(SolveError::CostOverflow);
        },
    };
    let cells_n = w * h;
    let n = match cells_n.checked_mul(per_cell) {
        Some(x) => x,
        None => {
            proof {
                assert(state_count(c) > usize::MAX) by (nonlinear_arith)
                    requires
                        c.w * c.h * ((c.max_run + 1) * 4) > usize::MAX,
                        state_count(c) == c.w * c.h * 4 * (c.max_run + 1),
                {}
            }
            return Err(SolveError::CostOverflow);
        },
    };
    proof {
        assert(n as int == state_count(c)) by (nonlinear_arith)
            requires
                n as int == (c.w * c.h) * ((c.max_run + 1) * 4),
                state_count(c) == c.w * c.h * 4 * (c.max_run + 1),
        {}
    }
    let maxc = max_cell(grid);
    let n1 = match (n as u64).checked_add(1) {
        Some(x) => x,
        None => {
            return Err(SolveError::CostOverflow);
        },
    };
    match n1.checked_mul(maxc as u64) {
        Some(_) => (),
        None => {
            return Err(SolveError::CostOverflow);
        },
    };
    proof {
        assert(fits(c));
        assert(!solve_overflows(c));
    }

    // A path of no steps: the origin's entry cost is never counted.
    if origin.0 == destination.0 && origin.1 == destination.1 {
        return Ok(Some(0));
    }

    // The best-cost table: unknown everywhere, except the four synthetic
    // start entries at cost zero.
    let mut table: Vec<Option<u64>> = vec![Option::None; n];
    let mut d: usize = 0;
    while d < 4
        invariant
            ctx_wf(c),
            c == search_ctx(grid, origin, min_run, max_run),
            grid.wf(),
            origin.spec_within(grid.spec_size()),
            w as int == c.w,
            h as int == c.h,
            c.max_run == max_run as int,
            n as int == state_count(c),
            state_count(c) <= usize::MAX,
            d <= 4,
            table@.len() == n as int,
            forall|dd: int|
                0 <= dd < d ==> table@[state_pos(c, #[trigger] start_state(c, dd))] == Some(
                    0u64,
                ),
            forall|i: int|
                0 <= i < table@.len() ==> (#[trigger] table@[i] is Some ==> table@[i] == Some(
                    0u64,
                ) && exists|dd: int|
                    0 <= dd < d && i == state_pos(c, #[trigger] start_state(c, dd))),
        decreases 4 - d,
    {
        let si = state_index(w, max_run, origin.0, origin.1, d, 0, Ghost(c));
        let ghost before = table@;
        table[si] = Some(0);
        proof {
            assert(SearchState { x: origin.0 as int, y: origin.1 as int, d: d as int, r: 0 }
                == start_state(c, d as int));
            assert(table@ =~= before.update(si as int, Some(0u64)));
            assert forall|dd: int| 0 <= dd < d + 1 implies table@[state_pos(
                c,
                #[trigger] start_state(c, dd),
            )] == Some(0u64) by {
                assert(valid_state(c, start_state(c, dd)));
                lemma_state_pos_bounds(c, start_state(c, dd));
                if dd < d {
                    assert(before[state_pos(c, start_state(c, dd))] == Some(0u64));
                }
            }
            assert forall|i: int|
                0 <= i < table@.len() && #[trigger] table@[i] is Some implies table@[i] == Some(
                0u64,
            ) && exists|dd: int|
                0 <= dd < (d as int) + 1 && i == state_pos(c, #[trigger] start_state(c, dd)) by {
                if i == si as int {
                    assert(0 <= (d as int) < (d as int) + 1 && i == state_pos(
                        c,
                        start_state(c, d as int),
                    ));
                } else {
                    assert(before[i] is Some);
                    let dd = choose|dd: int|
                        0 <= dd < (d as int) && i == state_pos(c, #[trigger] start_state(c, dd));
                    assert(0 <= dd < (d as int) + 1 && i == state_pos(c, start_state(c, dd)));
                }
            }
        }
        d = d + 1;
    }

    proof {
        // The fresh table satisfies every pass invariant.
        lemma_finite_count_bounds(table@);
        lemma_cells_max_nonneg(c.cells);
        assert(values_bounded(c, table@)) by {
            assert forall|i: int|
                0 <= i < table@.len() implies (#[trigger] table@[i] matches Option::Some(v)
                ==> v as int <= finite_count(table@) * cells_max(c.cells)) by {
                if table@[i] is Some {
                    assert(finite_count(table@) * cells_max(c.cells) >= 0) by (nonlinear_arith)
                        requires
                            finite_count(table@) >= 0,
                            cells_max(c.cells) >= 0,
                    {}
                }
            }
        }
        assert(dominates(c, table@)) by {
            assert forall|g: Seq<Option<u64>>| #[trigger] consistent(c, g) implies forall|i: int|
                0 <= i < table@.len() ==> le_opt(g[i], #[trigger] table@[i]) by {
                assert forall|i: int| 0 <= i < table@.len() implies le_opt(
                    g[i],
                    #[trigger] table@[i],
                ) by {
                    if table@[i] is Some {
                        let dd = choose|dd: int|
                            0 <= dd < 4 && i == state_pos(c, #[trigger] start_state(c, dd));
                        assert(le_opt(g[state_pos(c, start_state(c, dd))], Some(0u64)));
                    }
                }
            }
        }
        assert(pass_invariant(c, table@));
    }

    // Relax to the fixed point: every pass either lowers the table's
    // total weight or changes nothing and proves every edge relaxed.
    let mut changed = true;
    while changed
        invariant
            ctx_matches(c, grid),
            c.min_run == min_run as int,
            c.max_run == max_run as int,
            fits(c),
            pass_invariant(c, table@),
            !changed ==> relaxed(c, table@),
        decreases table_measure(table@, measure_cap(c)), (if changed {
            1int
        } else {
            0int
        }),
    {
        changed = relax_pass(&mut table, grid, min_run, max_run, Ghost(c));
        proof {
            lemma_cells_max_nonneg(c.cells);
            assert(measure_cap(c) >= 0) by (nonlinear_arith)
                requires
                    state_count(c) >= 0,
                    cells_max(c.cells) >= 0,
                    measure_cap(c) == state_count(c) * cells_max(c.cells) + 1,
            {}
            lemma_measure_nonneg(table@, measure_cap(c));
        }
    }

    proof {
        assert(starts_bounded(c, table@)) by {
            assert forall|dd: int| 0 <= dd < 4 implies le_opt(
                table@[state_pos(c, #[trigger] start_state(c, dd))],
                Some(0u64),
            ) by {}
        }
        assert(solution_table(c, table@));
    }

    // The answer: the least entry among the destination's goal states.
    let ghost gx = destination.0 as int;
    let ghost gy = destination.1 as int;
    let mut best: Option<u64> = None;
    let mut d2: usize = 0;
    while d2 < 4
        invariant
            ctx_matches(c, grid),
            c.min_run == min_run as int,
            c.max_run == max_run as int,
            fits(c),
            solution_table(c, table@),
            table@.len() == state_count(c),
            w as int == c.w,
            h as int == c.h,
            gx == destination.0 as int,
            gy == destination.1 as int,
            destination.spec_within(grid.spec_size()),
            1 <= min_run <= max_run,
            d2 <= 4,
            match best {
                Option::None => forall|s: SearchState|
                    #[trigger] goal_state(c, s, gx, gy) && s.d < d2 ==> table@[state_pos(
                        c,
                        s,
                    )] is None,
                Option::Some(v) => {
                    &&& exists|s: SearchState|
                        #[trigger] goal_state(c, s, gx, gy) && s.d < d2 && table@[state_pos(
                            c,
                            s,
                        )] == Some(v)
                    &&& forall|s: SearchState|
                        #[trigger] goal_state(c, s, gx, gy) && s.d < d2 ==> le_opt(
                            Some(v),
                            table@[state_pos(c, s)],
                        )
                },
            },
        decreases 4 - d2,
    {
        let mut rl: usize = min_run;
        while rl <= max_run
            invariant
                ctx_matches(c, grid),
                c.min_run == min_run as int,
                c.max_run == max_run as int,
                fits(c),
                solution_table(c, table@),
                table@.len() == state_count(c),
                w as int == c.w,
                h as int == c.h,
                gx == destination.0 as int,
                gy == destination.1 as int,
                destination.spec_within(grid.spec_size()),
                1 <= min_run <= max_run,
                d2 < 4,
                min_run <= rl <= max_run + 1,
                match best {
                    Option::None => forall|s: SearchState|
                        #[trigger] goal_state(c, s, gx, gy) && (s.d < d2 || (s.d == d2 && s.r
                            < rl)) ==> table@[state_pos(c, s)] is None,
                    Option::Some(v) => {
                        &&& exists|s: SearchState|
                            #[trigger] goal_state(c, s, gx, gy) && (s.d < d2 || (s.d == d2
                                && s.r < rl)) && table@[state_pos(c, s)] == Some(v)
                        &&& forall|s: SearchState|
                            #[trigger] goal_state(c, s, gx, gy) && (s.d < d2 || (s.d == d2
                                && s.r < rl)) ==> le_opt(Some(v), table@[state_pos(c, s)])
                    },
                },
            decreases max_run + 1 - rl,
        {
            let idx = state_index(w, max_run, destination.0, destination.1, d2, rl, Ghost(c));
            let ghost cur = SearchState { x: gx, y: gy, d: d2 as int, r: rl as int };
            let e = table[idx];
            proof {
                assert(goal_state(c, cur, gx, gy));
            }
            match e {
                Some(v0) => {
                    let _ = min_changed(&mut best, v0);
                },
                None => (),
            };
            proof {
                assert forall|s: SearchState|
                    #[trigger] goal_state(c, s, gx, gy) && (s.d < d2 || (s.d == d2 && s.r < rl
                        + 1)) && !(s.d < d2 || (s.d == d2 && s.r < rl)) implies s == cur by {}
                assert((max_run as int) + 1 <= state_count(c)) by (nonlinear_arith)
                    requires
                        c.w >= 1,
                        c.h >= 1,
                        c.max_run >= 0,
                        c.max_run == max_run as int,
                {}
            }
            rl = rl + 1;
        }
        proof {
            if best is None {
                assert forall|s: SearchState|
                    #[trigger] goal_state(c, s, gx, gy) && s.d < d2 + 1 implies table@[state_pos(
                    c,
                    s,
                )] is None by {
                    assert(s.d < d2 || (s.d == d2 && s.r < max_run as int + 1));
                }
            } else {
                let v = best->0;
                assert forall|s: SearchState|
                    #[trigger] goal_state(c, s, gx, gy) && s.d < d2 + 1 implies le_opt(
                    Some(v),
                    table@[state_pos(c, s)],
                ) by {
                    assert(s.d < d2 || (s.d == d2 && s.r < max_run as int + 1));
                }
            }
        }
        d2 = d2 + 1;
    }
    proof {
        assert(is_goal_best(c, table@, gx, gy, best)) by {
            if best is Some {
                assert(exists|s: SearchState|
                    #[trigger] goal_state(c, s, gx, gy) && s.d < 4 && table@[state_pos(c, s)]
                        == Some(best->0));
            }
        }
        assert(solution_table(c, table@) && is_goal_best(
            c,
            table@,
            destination.0 as int,
            destination.1 as int,
            best,
        ));
    }
    Ok(best)
}

} // verus!
