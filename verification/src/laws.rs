//! General properties of the solver, proved from its contract alone.
//!
//! The solver's postcondition characterises its answer through a table
//! that is consistent and dominates every consistent table. The proofs
//! here show that this characterisation is categorical — the table, and
//! with it the answer, is a function of the inputs — and that the answer
//! moves monotonically with the grid's costs.

use vstd::prelude::*;

use crate::cost::{le_opt, le_opt_plus};
use crate::solver::{
    consistent, ctx_wf, edge, goal_state, is_goal_best, lemma_state_pos_bounds,
    solution_table, start_state, state_pos, SearchCtx, SearchState,
};

verus! {

/// There is at most one table that is consistent and dominates every
/// consistent table: two such tables lie below one another pointwise,
/// and the entry order is antisymmetric.
pub proof fn lemma_solution_table_unique(
    c: SearchCtx,
    t1: Seq<Option<u64>>,
    t2: Seq<Option<u64>>,
)
    requires
        solution_table(c, t1),
        solution_table(c, t2),
    ensures
        t1 == t2,
{
    assert forall|i: int| 0 <= i < t1.len() implies t1[i] == t2[i] by {
        assert(consistent(c, t1));
        assert(consistent(c, t2));
        assert(le_opt(t1[i], t2[i]));
        assert(le_opt(t2[i], t1[i]));
    }
    assert(t1 =~= t2);
}

/// Solving the same inputs twice yields the same answer: any two answers
/// that satisfy the solver's postcondition for one context and
/// destination coincide. There is no hidden state the result could
/// depend on.
pub proof fn lemma_answer_deterministic(
    c: SearchCtx,
    gx: int,
    gy: int,
    t1: Seq<Option<u64>>,
    t2: Seq<Option<u64>>,
    a1: Option<u64>,
    a2: Option<u64>,
)
    requires
        solution_table(c, t1),
        solution_table(c, t2),
        is_goal_best(c, t1, gx, gy, a1),
        is_goal_best(c, t2, gx, gy, a2),
    ensures
        a1 == a2,
{
    lemma_solution_table_unique(c, t1, t2);
    match (a1, a2) {
        (Option::None, Option::None) => (),
        (Option::Some(v1), Option::Some(v2)) => {
            let s1 = choose|s: SearchState|
                #[trigger] goal_state(c, s, gx, gy) && t1[state_pos(c, s)] == Some(v1);
            let s2 = choose|s: SearchState|
                #[trigger] goal_state(c, s, gx, gy) && t2[state_pos(c, s)] == Some(v2);
            assert(le_opt(Some(v1), t1[state_pos(c, s2)]));
            assert(le_opt(Some(v2), t2[state_pos(c, s1)]));
        },
        (Option::None, Option::Some(v2)) => {
            let s2 = choose|s: SearchState|
                #[trigger] goal_state(c, s, gx, gy) && t2[state_pos(c, s)] == Some(v2);
            assert(t1[state_pos(c, s2)] is None);
        },
        (Option::Some(v1), Option::None) => {
            let s1 = choose|s: SearchState|
                #[trigger] goal_state(c, s, gx, gy) && t1[state_pos(c, s)] == Some(v1);
            assert(t2[state_pos(c, s1)] is None);
        },
    }
}

/// Raising grid costs never lowers the reported minimum: with the same
/// size, origin and run bounds, and every cell of `c2` at least the
/// matching cell of `c1`, the answer under `c1` lies at or below the
/// answer under `c2` (an unreachable answer reading as above every
/// reachable one). Raising a single cell is the special case where the
/// two grids differ in one entry.
pub proof fn lemma_cost_monotonic(
    c1: SearchCtx,
    c2: SearchCtx,
    gx: int,
    gy: int,
    t1: Seq<Option<u64>>,
    t2: Seq<Option<u64>>,
    a1: Option<u64>,
    a2: Option<u64>,
)
    requires
        ctx_wf(c1),
        c2.w == c1.w,
        c2.h == c1.h,
        c2.min_run == c1.min_run,
        c2.max_run == c1.max_run,
        c2.ox == c1.ox,
        c2.oy == c1.oy,
        c2.cells.len() == c1.cells.len(),
        forall|i: int| 0 <= i < c1.cells.len() ==> #[trigger] c1.cells[i] <= c2.cells[i],
        solution_table(c1, t1),
        solution_table(c2, t2),
        is_goal_best(c1, t1, gx, gy, a1),
        is_goal_best(c2, t2, gx, gy, a2),
    ensures
        le_opt(a1, a2),
{
    // The cheap grid's table is consistent under the dear grid too: the
    // state graph is the same, and each edge's relaxation only gains
    // slack as the entered cell's cost grows.
    assert(consistent(c2, t1)) by {
        assert forall|d: int| 0 <= d < 4 implies le_opt(
            t1[state_pos(c2, #[trigger] start_state(c2, d))],
            Some(0u64),
        ) by {
            assert(start_state(c2, d) == start_state(c1, d));
            assert(le_opt(t1[state_pos(c1, start_state(c1, d))], Some(0u64)));
        }
        assert forall|s: SearchState, t: SearchState| #[trigger] edge(c2, s, t)
            implies le_opt_plus(
            t1[state_pos(c2, t)],
            t1[state_pos(c2, s)],
            c2.cells[t.y * c2.w + t.x] as int,
        ) by {
            assert(edge(c1, s, t));
            assert(0 <= t.y * c1.w + t.x < c1.w * c1.h) by (nonlinear_arith)
                requires
                    0 <= t.x < c1.w,
                    0 <= t.y < c1.h,
            {}
            assert(le_opt_plus(
                t1[state_pos(c1, t)],
                t1[state_pos(c1, s)],
                c1.cells[t.y * c1.w + t.x] as int,
            ));
            assert(c1.cells[t.y * c1.w + t.x] <= c2.cells[t.y * c1.w + t.x]);
        }
    }
    // So the dear grid's table dominates it pointwise, and the least goal
    // entry can only grow.
    match a2 {
        Option::None => (),
        Option::Some(v2) => {
            let s2 = choose|s: SearchState|
                #[trigger] goal_state(c2, s, gx, gy) && t2[state_pos(c2, s)] == Some(v2);
            assert(ctx_wf(c2));
            lemma_state_pos_bounds(c2, s2);
            assert(le_opt(t1[state_pos(c2, s2)], t2[state_pos(c2, s2)]));
            assert(goal_state(c1, s2, gx, gy));
            match a1 {
                Option::None => {
                    assert(t1[state_pos(c1, s2)] is None);
                    assert(false);
                },
                Option::Some(v1) => {
                    assert(le_opt(Some(v1), t1[state_pos(c1, s2)]));
                },
            }
        },
    }
}

} // verus!
