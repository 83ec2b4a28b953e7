//! Path semantics for the solver: what the relaxation fixed point means.
//!
//! A valid path is a walk through the state graph that leaves a
//! synthetic start state and follows edges — so it obeys the run
//! constraints by construction — and its cost is the sum of the entry
//! costs of the cells stepped onto. The results here tie the solver's
//! answer to these paths: the answer never exceeds any valid path's
//! cost to the destination, it is itself realised by such a path, and
//! it is absent exactly when no valid path reaches the destination.

use vstd::prelude::*;

use crate::cost::{le_opt, le_opt_plus};
use crate::solver::{
    cell_at, cells_max, consistent, ctx_wf, edge, goal_state, is_goal_best,
    lemma_state_pos_bounds, solution_table, start_state, state_count, state_pos, valid_state,
    SearchCtx, SearchState,
};

verus! {

/// A walk through the state graph: it begins at a synthetic start state
/// and every step follows an edge. The run constraints hold of every
/// valid path by construction, since only edges respecting them exist.
pub open spec fn valid_path(c: SearchCtx, p: Seq<SearchState>) -> bool {
    &&& p.len() >= 1
    &&& (exists|d: int| 0 <= d < 4 && p[0] == start_state(c, d))
    &&& valid_state(c, p[0])
    &&& (forall|i: int| 0 <= i < p.len() - 1 ==> edge(c, #[trigger] p[i], p[i + 1]))
}

/// The accumulated cost of a path: the entry cost of every cell stepped
/// onto. The start cell's own cost is never counted.
pub open spec fn path_cost(c: SearchCtx, p: Seq<SearchState>) -> int
    decreases p.len(),
{
    if p.len() <= 1 {
        0
    } else {
        path_cost(c, p.drop_last()) + cell_at(c, p.last().x, p.last().y)
    }
}

/// Every state a valid path visits is a node of the graph.
proof fn lemma_path_states_valid(c: SearchCtx, p: Seq<SearchState>, i: int)
    requires
        valid_path(c, p),
        0 <= i < p.len(),
    ensures
        valid_state(c, p[i]),
{
    if i > 0 {
        assert(edge(c, p[i - 1], p[i]));
    }
}

/// A valid path's prefix is a valid path.
proof fn lemma_path_prefix(c: SearchCtx, p: Seq<SearchState>)
    requires
        valid_path(c, p),
        p.len() >= 2,
    ensures
        valid_path(c, p.drop_last()),
{
    let q = p.drop_last();
    assert(q[0] == p[0]);
    assert forall|i: int| 0 <= i < q.len() - 1 implies edge(c, #[trigger] q[i], q[i + 1]) by {
        assert(edge(c, p[i], p[i + 1]));
    }
}

/// A path's cost is never negative.
proof fn lemma_path_cost_nonneg(c: SearchCtx, p: Seq<SearchState>)
    requires
        ctx_wf(c),
        valid_path(c, p),
    ensures
        path_cost(c, p) >= 0,
    decreases p.len(),
{
    if p.len() >= 2 {
        lemma_path_prefix(c, p);
        lemma_path_cost_nonneg(c, p.drop_last());
        lemma_path_states_valid(c, p, p.len() - 1);
        let last = p.last();
        assert(0 <= last.y * c.w + last.x < c.cells.len()) by (nonlinear_arith)
            requires
                0 <= last.x < c.w,
                0 <= last.y < c.h,
                c.cells.len() == c.w * c.h,
        {}
    }
}

/// In any consistent table, the entry of a path's final state is a known
/// cost at or below the path's cost: relaxation never overestimates.
pub proof fn lemma_consistent_below_path(c: SearchCtx, g: Seq<Option<u64>>, p: Seq<SearchState>)
    requires
        ctx_wf(c),
        consistent(c, g),
        valid_path(c, p),
    ensures
        g[state_pos(c, p.last())] matches Some(v) && v <= path_cost(c, p),
    decreases p.len(),
{
    if p.len() == 1 {
        let d = choose|d: int| 0 <= d < 4 && p[0] == start_state(c, d);
        assert(le_opt(g[state_pos(c, start_state(c, d))], Some(0u64)));
    } else {
        lemma_path_prefix(c, p);
        lemma_consistent_below_path(c, g, p.drop_last());
        let s = p[p.len() - 2];
        let t = p.last();
        assert(p.drop_last().last() == s);
        assert(edge(c, s, t));
        assert(le_opt_plus(g[state_pos(c, t)], g[state_pos(c, s)], cell_at(c, t.x, t.y)));
    }
}

/// Some valid path ends at `s` with cost `v`.
pub open spec fn reaches(c: SearchCtx, s: SearchState, v: int) -> bool {
    exists|p: Seq<SearchState>|
        valid_path(c, p) && p.last() == s && #[trigger] path_cost(c, p) == v
}

/// `v` is the least cost of any valid path ending at `s`.
pub open spec fn least_cost(c: SearchCtx, s: SearchState, v: int) -> bool {
    &&& 0 <= v
    &&& reaches(c, s, v)
    &&& forall|w: int| 0 <= w < v ==> !reaches(c, s, w)
}

/// A reachable state has a least path cost.
proof fn lemma_least_exists(c: SearchCtx, s: SearchState, v: int)
    requires
        ctx_wf(c),
        reaches(c, s, v),
    ensures
        exists|u: int| 0 <= u <= v && #[trigger] least_cost(c, s, u),
    decreases v,
{
    let p = choose|p: Seq<SearchState>|
        valid_path(c, p) && p.last() == s && #[trigger] path_cost(c, p) == v;
    lemma_path_cost_nonneg(c, p);
    if exists|w: int| 0 <= w < v && #[trigger] reaches(c, s, w) {
        let w = choose|w: int| 0 <= w < v && #[trigger] reaches(c, s, w);
        lemma_least_exists(c, s, w);
        let u = choose|u: int| 0 <= u <= w && #[trigger] least_cost(c, s, u);
        assert(0 <= u <= v && least_cost(c, s, u));
    } else {
        assert(least_cost(c, s, v));
    }
}

/// Least path costs are unique.
proof fn lemma_least_unique(c: SearchCtx, s: SearchState, u1: int, u2: int)
    requires
        least_cost(c, s, u1),
        least_cost(c, s, u2),
    ensures
        u1 == u2,
{
}

/// The state whose flat table index is `i`.
pub open spec fn state_of(c: SearchCtx, i: int) -> SearchState {
    let runs = c.max_run + 1;
    SearchState {
        x: (i / runs / 4) % c.w,
        y: i / runs / 4 / c.w,
        d: (i / runs) % 4,
        r: i % runs,
    }
}

/// Decoding a valid state's flat index recovers the state.
proof fn lemma_state_roundtrip(c: SearchCtx, s: SearchState)
    requires
        ctx_wf(c),
        valid_state(c, s),
    ensures
        state_of(c, state_pos(c, s)) == s,
{
    let runs = c.max_run + 1;
    let i = state_pos(c, s);
    let a = (s.y * c.w + s.x) * 4 + s.d;
    let b = s.y * c.w + s.x;
    vstd::arithmetic::div_mod::lemma_fundamental_div_mod_converse_mod(i, runs, a, s.r);
    vstd::arithmetic::div_mod::lemma_fundamental_div_mod_converse_div(i, runs, a, s.r);
    vstd::arithmetic::div_mod::lemma_fundamental_div_mod_converse_mod(a, 4, b, s.d);
    vstd::arithmetic::div_mod::lemma_fundamental_div_mod_converse_div(a, 4, b, s.d);
    vstd::arithmetic::div_mod::lemma_fundamental_div_mod_converse_mod(b, c.w, s.y, s.x);
    vstd::arithmetic::div_mod::lemma_fundamental_div_mod_converse_div(b, c.w, s.y, s.x);
}

/// The clamping point for stored least costs: high enough to sit above
/// every cost the solver's table holds under its overflow guard, low
/// enough that one more step never leaves `u64`.
pub open spec fn clamp_cap(c: SearchCtx) -> int {
    u64::MAX - cells_max(c.cells)
}

/// The least path cost to `s`, clamped at `clamp_cap`, or `None` for an
/// unreachable state.
pub open spec fn best_entry(c: SearchCtx, s: SearchState) -> Option<u64> {
    if exists|v: int| #[trigger] reaches(c, s, v) {
        let u = choose|u: int| #[trigger] least_cost(c, s, u);
        if u <= clamp_cap(c) {
            Some(u as u64)
        } else {
            Some(clamp_cap(c) as u64)
        }
    } else {
        Option::None
    }
}

/// The table of clamped least path costs.
pub open spec fn best_table(c: SearchCtx) -> Seq<Option<u64>> {
    Seq::new(state_count(c) as nat, |i: int| best_entry(c, state_of(c, i)))
}

/// For a reachable state the clamped table holds the least cost, or the
/// cap when the least cost lies above it.
proof fn lemma_best_entry_of_least(c: SearchCtx, s: SearchState, u: int)
    requires
        ctx_wf(c),
        least_cost(c, s, u),
    ensures
        best_entry(c, s) == Some(
            (if u <= clamp_cap(c) {
                u
            } else {
                clamp_cap(c)
            }) as u64,
        ),
{
    assert(reaches(c, s, u));
    let u2 = choose|u2: int| #[trigger] least_cost(c, s, u2);
    assert(least_cost(c, s, u2)) by {
        assert(exists|v: int| #[trigger] reaches(c, s, v));
    }
    lemma_least_unique(c, s, u, u2);
}

/// One-step extension: a least cost propagates along an edge.
proof fn lemma_reaches_step(c: SearchCtx, s: SearchState, t: SearchState, u: int)
    requires
        ctx_wf(c),
        edge(c, s, t),
        reaches(c, s, u),
    ensures
        reaches(c, t, u + cell_at(c, t.x, t.y)),
{
    let p = choose|p: Seq<SearchState>|
        valid_path(c, p) && p.last() == s && #[trigger] path_cost(c, p) == u;
    let p2 = p.push(t);
    assert(p2[0] == p[0]);
    assert(p2.last() == t);
    assert(valid_path(c, p2)) by {
        assert forall|i: int| 0 <= i < p2.len() - 1 implies edge(c, #[trigger] p2[i], p2[i + 1]) by {
            if i < p.len() - 1 {
                assert(edge(c, p[i], p[i + 1]));
                assert(p2[i] == p[i] && p2[i + 1] == p[i + 1]);
            } else {
                assert(p2[i] == p.last() && p2[i + 1] == t);
            }
        }
    }
    assert(p2.drop_last() =~= p);
    assert(path_cost(c, p2) == path_cost(c, p) + cell_at(c, t.x, t.y));
}

/// The clamped least-cost table is consistent: start entries hold zero
/// and every edge is relaxed, with the clamp absorbing costs past the
/// cap.
proof fn lemma_best_table_consistent(c: SearchCtx)
    requires
        ctx_wf(c),
    ensures
        consistent(c, best_table(c)),
{
    let bt = best_table(c);
    crate::solver::lemma_cells_max_in_range(c.cells);
    assert(clamp_cap(c) >= 0);

    // Start entries: the one-state path reaches each start with cost 0.
    assert forall|d: int| 0 <= d < 4 implies le_opt(
        bt[state_pos(c, #[trigger] start_state(c, d))],
        Some(0u64),
    ) by {
        let s = start_state(c, d);
        assert(valid_state(c, s));
        lemma_state_pos_bounds(c, s);
        lemma_state_roundtrip(c, s);
        let p = seq![s];
        assert(p[0] == start_state(c, d));
        assert(p.last() == s);
        assert(path_cost(c, p) == 0);
        assert(valid_path(c, p));
        assert(reaches(c, s, 0));
        assert(least_cost(c, s, 0));
        lemma_best_entry_of_least(c, s, 0);
    }

    // Relaxation: a least cost to the source extends along the edge, and
    // the clamp only ever lowers what must be matched.
    assert forall|s: SearchState, t: SearchState| #[trigger] edge(c, s, t) implies le_opt_plus(
        bt[state_pos(c, t)],
        bt[state_pos(c, s)],
        cell_at(c, t.x, t.y),
    ) by {
        lemma_state_pos_bounds(c, s);
        lemma_state_pos_bounds(c, t);
        lemma_state_roundtrip(c, s);
        lemma_state_roundtrip(c, t);
        let cc = cell_at(c, t.x, t.y);
        assert(0 <= t.y * c.w + t.x < c.cells.len()) by (nonlinear_arith)
            requires
                0 <= t.x < c.w,
                0 <= t.y < c.h,
                c.cells.len() == c.w * c.h,
        {}
        crate::solver::lemma_cells_max_ge(c.cells, t.y * c.w + t.x);
        if bt[state_pos(c, s)] is Some {
            assert(exists|v: int| #[trigger] reaches(c, s, v));
            let v0 = choose|v: int| #[trigger] reaches(c, s, v);
            lemma_least_exists(c, s, v0);
            let us = choose|u: int| 0 <= u <= v0 && #[trigger] least_cost(c, s, u);
            lemma_best_entry_of_least(c, s, us);
            lemma_reaches_step(c, s, t, us);
            lemma_least_exists(c, t, us + cc);
            let ut = choose|u: int| 0 <= u <= us + cc && #[trigger] least_cost(c, t, u);
            lemma_best_entry_of_least(c, t, ut);
        }
    }
}

/// The solver's answer never overestimates: any valid path that may
/// stop on the destination costs at least the answer — so in particular
/// an answer of `None` means no such path exists at all.
pub proof fn lemma_answer_below_paths(
    c: SearchCtx,
    gx: int,
    gy: int,
    t: Seq<Option<u64>>,
    a: Option<u64>,
    p: Seq<SearchState>,
)
    requires
        ctx_wf(c),
        solution_table(c, t),
        is_goal_best(c, t, gx, gy, a),
        valid_path(c, p),
        goal_state(c, p.last(), gx, gy),
    ensures
        a matches Some(v) && v <= path_cost(c, p),
{
    lemma_consistent_below_path(c, t, p);
}

/// The solver's answer is realised: some valid path stops on the
/// destination with exactly that cost. The one side condition keeps the
/// answer clear of the very top of `u64`, where one more step could not
/// be represented.
pub proof fn lemma_answer_achieved(
    c: SearchCtx,
    gx: int,
    gy: int,
    t: Seq<Option<u64>>,
    a: Option<u64>,
)
    requires
        ctx_wf(c),
        solution_table(c, t),
        is_goal_best(c, t, gx, gy, a),
        a matches Some(v) && v + cells_max(c.cells) < u64::MAX,
    ensures
        exists|p: Seq<SearchState>|
            valid_path(c, p) && goal_state(c, p.last(), gx, gy) && #[trigger] path_cost(c, p)
                == a->0,
{
    let v = a->0;
    let s = choose|s: SearchState|
        #[trigger] goal_state(c, s, gx, gy) && t[state_pos(c, s)] == Some(v);
    lemma_state_pos_bounds(c, s);
    lemma_state_roundtrip(c, s);
    lemma_best_table_consistent(c);
    assert(le_opt(best_table(c)[state_pos(c, s)], t[state_pos(c, s)]));
    assert(best_entry(c, s) is Some);
    assert(exists|w: int| #[trigger] reaches(c, s, w));
    let w0 = choose|w: int| #[trigger] reaches(c, s, w);
    lemma_least_exists(c, s, w0);
    let u = choose|u: int| 0 <= u <= w0 && #[trigger] least_cost(c, s, u);
    lemma_best_entry_of_least(c, s, u);
    // The answer sits under every path cost, so under the least.
    let q = choose|q: Seq<SearchState>|
        valid_path(c, q) && q.last() == s && #[trigger] path_cost(c, q) == u;
    lemma_consistent_below_path(c, t, q);
    assert(v <= u);
    // And the clamped table sits under the answer, pinning the least.
    if u <= clamp_cap(c) {
        assert(u <= v);
        assert(path_cost(c, q) == v);
        assert(goal_state(c, q.last(), gx, gy));
    } else {
        assert(clamp_cap(c) <= v);
        assert(v < clamp_cap(c));
        assert(false);
    }
}

/// The headline result: the solver's answer is exactly the least cost
/// of any valid path that may stop on the destination — no valid path
/// costs less, and one valid path costs exactly the answer.
pub proof fn lemma_answer_is_minimum(
    c: SearchCtx,
    gx: int,
    gy: int,
    t: Seq<Option<u64>>,
    a: Option<u64>,
)
    requires
        ctx_wf(c),
        solution_table(c, t),
        is_goal_best(c, t, gx, gy, a),
        a matches Some(v) && v + cells_max(c.cells) < u64::MAX,
    ensures
        forall|p: Seq<SearchState>|
            valid_path(c, p) && goal_state(c, p.last(), gx, gy) ==> a->0 <= #[trigger] path_cost(
                c,
                p,
            ),
        exists|p: Seq<SearchState>|
            valid_path(c, p) && goal_state(c, p.last(), gx, gy) && #[trigger] path_cost(c, p)
                == a->0,
{
    assert forall|p: Seq<SearchState>|
        valid_path(c, p) && goal_state(c, p.last(), gx, gy) implies a->0 <= #[trigger] path_cost(
        c,
        p,
    ) by {
        lemma_answer_below_paths(c, gx, gy, t, a, p);
    }
    lemma_answer_achieved(c, gx, gy, t, a);
}

} // verus!
