//! Optional accumulated-cost values, ordered with `None` reading as "no
//! cost known yet", i.e. larger than every known cost.
//!
//! The solver's best-cost table is a sequence of such values; the spec
//! functions here give the table's pointwise order, its count of known
//! entries, and a total weight that strictly shrinks under every
//! cost-decreasing update, which is what bounds the relaxation loop.

use vstd::prelude::*;

verus! {

/// `a <= b` where `None` stands above every known cost.
pub open spec fn le_opt(a: Option<u64>, b: Option<u64>) -> bool {
    match b {
        Option::None => true,
        Option::Some(bv) => a matches Option::Some(av) && av <= bv,
    }
}

/// `a <= b + c` where `None` stands above every known cost; any `a` is
/// admitted when `b` is unknown.
pub open spec fn le_opt_plus(a: Option<u64>, b: Option<u64>, c: int) -> bool {
    match b {
        Option::None => true,
        Option::Some(bv) => a matches Option::Some(av) && av <= bv + c,
    }
}

/// The weight of one entry: its cost, or `cap` for an unknown entry. With
/// `cap` above every stored cost, any single-entry decrease shrinks the
/// weight.
pub open spec fn wt(e: Option<u64>, cap: int) -> int {
    match e {
        Option::None => cap,
        Option::Some(v) => v as int,
    }
}

/// The sum of all entry weights: the termination measure of the
/// relaxation loop.
pub open spec fn table_measure(t: Seq<Option<u64>>, cap: int) -> int
    decreases t.len(),
{
    if t.len() == 0 {
        0
    } else {
        table_measure(t.drop_last(), cap) + wt(t.last(), cap)
    }
}

/// How many entries hold a known cost.
pub open spec fn finite_count(t: Seq<Option<u64>>) -> int
    decreases t.len(),
{
    if t.len() == 0 {
        0
    } else {
        finite_count(t.drop_last()) + if t.last() is Some {
            1int
        } else {
            0int
        }
    }
}

/// The count of known entries never leaves `[0, len]`.
pub proof fn lemma_finite_count_bounds(t: Seq<Option<u64>>)
    ensures
        0 <= finite_count(t) <= t.len(),
    decreases t.len(),
{
    if t.len() > 0 {
        lemma_finite_count_bounds(t.drop_last());
    }
}

/// Replacing one entry changes the count of known entries by exactly the
/// difference in the two entries' kinds.
pub proof fn lemma_finite_count_update(t: Seq<Option<u64>>, i: int, e: Option<u64>)
    requires
        0 <= i < t.len(),
    ensures
        finite_count(t.update(i, e)) == finite_count(t) + (if e is Some {
            1int
        } else {
            0int
        }) - (if t[i] is Some {
            1int
        } else {
            0int
        }),
    decreases t.len(),
{
    let u = t.update(i, e);
    if i == t.len() - 1 {
        assert(u.drop_last() =~= t.drop_last());
    } else {
        assert(u.drop_last() =~= t.drop_last().update(i, e));
        lemma_finite_count_update(t.drop_last(), i, e);
    }
}

/// Replacing one entry moves the total weight by exactly the difference of
/// the two entries' weights.
pub proof fn lemma_measure_update(t: Seq<Option<u64>>, cap: int, i: int, e: Option<u64>)
    requires
        0 <= i < t.len(),
    ensures
        table_measure(t.update(i, e), cap) == table_measure(t, cap) + wt(e, cap) - wt(t[i], cap),
    decreases t.len(),
{
    let u = t.update(i, e);
    if i == t.len() - 1 {
        assert(u.drop_last() =~= t.drop_last());
    } else {
        assert(u.drop_last() =~= t.drop_last().update(i, e));
        lemma_measure_update(t.drop_last(), cap, i, e);
    }
}

/// With every entry's weight non-negative, the total weight is too.
pub proof fn lemma_measure_nonneg(t: Seq<Option<u64>>, cap: int)
    requires
        cap >= 0,
    ensures
        table_measure(t, cap) >= 0,
    decreases t.len(),
{
    if t.len() > 0 {
        lemma_measure_nonneg(t.drop_last(), cap);
    }
}

} // verus!
