//! Spring-row arrangement counting.
//!
//! A row holds springs that are known broken (`Some(true)`), known
//! normal (`Some(false)`) or unknown (`None`), and a pattern of broken
//! run lengths. The counting walks the row once, carrying a table of
//! partial counts: entry `(i, j)` counts the ways to have matched the
//! first `i` pattern runs completely and `j` cells of run `i`, and one
//! extra single-cell segment at the end counts the ways with every run
//! matched. Each spring kind maps the table to a new one.

use vstd::prelude::*;

verus! {

/// The partial-count table as mathematical integers: one inner sequence
/// per pattern run (of that run's length plus one) and a final
/// single-entry segment.
pub open spec fn model(states: Seq<Vec<usize>>) -> Seq<Seq<int>> {
    Seq::new(states.len(), |i: int| Seq::new(states[i]@.len(), |j: int| states[i]@[j] as int))
}

/// How the model reads one entry of the underlying vectors.
pub proof fn lemma_model_entry(s: Seq<Vec<usize>>, i: int)
    requires
        0 <= i < s.len(),
    ensures
        model(s).len() == s.len(),
        model(s)[i].len() == s[i]@.len(),
        forall|j: int| 0 <= j < s[i]@.len() ==> model(s)[i][j] == #[trigger] s[i]@[j] as int,
{
}

/// The table shape that belongs to `pattern`.
pub open spec fn shaped(pattern: Seq<usize>, s: Seq<Vec<usize>>) -> bool {
    &&& s.len() == pattern.len() + 1
    &&& (forall|i: int| 0 <= i < pattern.len() ==> #[trigger] s[i]@.len() == pattern[i] + 1)
    &&& s[pattern.len() as int]@.len() == 1
}

/// The all-zero table of the shape that belongs to `pattern`.
pub open spec fn spec_empty(pattern: Seq<usize>) -> Seq<Seq<int>> {
    Seq::new(
        pattern.len() + 1,
        |i: int|
            if i < pattern.len() {
                Seq::new((pattern[i] + 1) as nat, |j: int| 0int)
            } else {
                Seq::new(1, |j: int| 0int)
            },
    )
}

/// The table after reading a broken spring: every partial run grows by
/// one cell, so each count moves one step right inside its segment;
/// counts that had completed their run, and the finished-row count,
/// drop (a broken spring cannot follow a finished row).
pub open spec fn spec_broken(pattern: Seq<usize>, t: Seq<Seq<int>>) -> Seq<Seq<int>> {
    Seq::new(
        pattern.len() + 1,
        |i: int|
            if i < pattern.len() {
                Seq::new(
                    (pattern[i] + 1) as nat,
                    |j: int| if j >= 1 {
                        t[i][j - 1]
                    } else {
                        0int
                    },
                )
            } else {
                Seq::new(1, |j: int| 0int)
            },
    )
}

/// The table after reading a normal spring: counts that had not started
/// their run stay, counts that had completed the previous run move on
/// to the next segment's start, and partial runs drop.
pub open spec fn spec_normal(pattern: Seq<usize>, t: Seq<Seq<int>>) -> Seq<Seq<int>> {
    Seq::new(
        pattern.len() + 1,
        |i: int|
            {
                let carried: int = if i >= 1 {
                    t[i][0] + t[i - 1][t[i - 1].len() - 1]
                } else {
                    t[i][0]
                };
                if i < pattern.len() {
                    Seq::new(
                        (pattern[i] + 1) as nat,
                        |j: int| if j == 0 {
                            carried
                        } else {
                            0int
                        },
                    )
                } else {
                    Seq::new(1, |j: int| carried)
                }
            },
    )
}

/// The table after reading an unknown spring: it may be broken or
/// normal, so the two outcomes add.
pub open spec fn spec_unknown(pattern: Seq<usize>, t: Seq<Seq<int>>) -> Seq<Seq<int>> {
    Seq::new(
        pattern.len() + 1,
        |i: int|
            Seq::new(
                spec_broken(pattern, t)[i].len(),
                |j: int| spec_broken(pattern, t)[i][j] + spec_normal(pattern, t)[i][j],
            ),
    )
}

/// Every entry of the table fits the machine's word.
pub open spec fn bounded(t: Seq<Seq<int>>) -> bool {
    forall|i: int, j: int|
        0 <= i < t.len() && 0 <= j < t[i].len() ==> 0 <= #[trigger] t[i][j] <= usize::MAX
}

/// The table after reading the first `k` springs, starting from the
/// all-zero table with a single count of one at the very start.
pub open spec fn spec_run(
    pattern: Seq<usize>,
    springs: Seq<Option<bool>>,
    k: int,
) -> Seq<Seq<int>>
    decreases k,
{
    if k <= 0 {
        spec_empty(pattern).update(0, spec_empty(pattern)[0].update(0, 1int))
    } else {
        let prev = spec_run(pattern, springs, k - 1);
        match springs[k - 1] {
            Some(true) => spec_broken(pattern, prev),
            Some(false) => spec_normal(pattern, prev),
            Option::None => spec_unknown(pattern, prev),
        }
    }
}

/// The arrangement count the full run yields: ways that finished the
/// last pattern run exactly at the row's end, plus ways that had
/// finished it earlier.
pub open spec fn spec_final_count(pattern: Seq<usize>, springs: Seq<Option<bool>>) -> int {
    let t = spec_run(pattern, springs, springs.len() as int);
    t[t.len() - 2][t[t.len() - 2].len() - 1] + t[t.len() - 1][0]
}

/// A row of springs: each known broken, known normal or unknown, plus
/// the pattern of broken run lengths the row must realise.
#[derive(Debug)]
pub struct Row {
    pub springs: Vec<Option<bool>>,
    pub pattern: Vec<usize>,
}

impl Row {
    /// Every pattern run is short enough for its segment to be
    /// addressed.
    pub open spec fn wf(&self) -> bool {
        forall|i: int| 0 <= i < self.pattern@.len() ==> #[trigger] self.pattern@[i] < usize::MAX
    }

    /// The all-zero partial-count table of this row's shape.
    pub fn empty_states(&self) -> (r: Vec<Vec<usize>>)
        requires
            self.wf(),
        ensures
            shaped(self.pattern@, r@),
            forall|i: int, j: int|
                0 <= i < r@.len() && 0 <= j < r@[i]@.len() ==> #[trigger] r@[i]@[j] == 0usize,
            model(r@) =~~= spec_empty(self.pattern@),
    {
        let mut states: Vec<Vec<usize>> = Vec::new();
        let mut i: usize = 0;
        while i < self.pattern.len()
            invariant
                self.wf(),
                i <= self.pattern@.len(),
                states@.len() == i,
                forall|k: int| 0 <= k < i ==> #[trigger] states@[k]@.len() == self.pattern@[k] + 1,
                forall|k: int, j: int|
                    0 <= k < i && 0 <= j < states@[k]@.len() ==> #[trigger] states@[k]@[j]
                        == 0usize,
            decreases self.pattern@.len() - i,
        {
            let mut segment: Vec<usize> = Vec::new();
            let width = self.pattern[i] + 1;
            let mut j: usize = 0;
            while j < width
                invariant
                    j <= width,
                    segment@.len() == j,
                    forall|k: int| 0 <= k < j ==> #[trigger] segment@[k] == 0usize,
                decreases width - j,
            {
                segment.push(0);
                j = j + 1;
            }
            states.push(segment);
            i = i + 1;
        }
        let mut last: Vec<usize> = Vec::new();
        last.push(0);
        states.push(last);
        proof {
            assert(model(states@) =~~= spec_empty(self.pattern@));
        }
        states
    }

    /// The table after reading a broken spring.
    pub fn broken_states(&self, states: &Vec<Vec<usize>>) -> (r: Vec<Vec<usize>>)
        requires
            self.wf(),
            shaped(self.pattern@, states@),
        ensures
            shaped(self.pattern@, r@),
            model(r@) =~~= spec_broken(self.pattern@, model(states@)),
    {
        let ghost target = spec_broken(self.pattern@, model(states@));
        let mut new_states = self.empty_states();
        let mut i: usize = 0;
        while i < self.pattern.len()
            invariant
                self.wf(),
                shaped(self.pattern@, states@),
                shaped(self.pattern@, new_states@),
                target == spec_broken(self.pattern@, model(states@)),
                i <= self.pattern@.len(),
                forall|k: int, j: int|
                    0 <= k < new_states@.len() && 0 <= j < new_states@[k]@.len() && !(k < i && 1
                        <= j) ==> #[trigger] new_states@[k]@[j] == 0usize,
                forall|k: int, j: int|
                    0 <= k < i && 1 <= j < new_states@[k]@.len()
                        ==> #[trigger] new_states@[k]@[j] == states@[k]@[j - 1],
            decreases self.pattern@.len() - i,
        {
            let width = new_states[i].len();
            proof {
                assert(width == self.pattern@[i as int] + 1);
                assert(states@[i as int]@.len() == self.pattern@[i as int] + 1);
            }
            let mut j: usize = 1;
            while j < width
                invariant
                    self.wf(),
                    shaped(self.pattern@, states@),
                    shaped(self.pattern@, new_states@),
                    i < self.pattern@.len(),
                    width == self.pattern@[i as int] + 1,
                    width == states@[i as int]@.len(),
                    width == new_states@[i as int]@.len(),
                    1 <= j <= width,
                    forall|k: int, j2: int|
                        0 <= k < new_states@.len() && 0 <= j2 < new_states@[k]@.len() && !(k < i
                            && 1 <= j2) && !(k == i && 1 <= j2 < j)
                            ==> #[trigger] new_states@[k]@[j2] == 0usize,
                    forall|k: int, j2: int|
                        0 <= k < i && 1 <= j2 < new_states@[k]@.len()
                            ==> #[trigger] new_states@[k]@[j2] == states@[k]@[j2 - 1],
                    forall|j2: int|
                        1 <= j2 < j ==> #[trigger] new_states@[i as int]@[j2] == states@[
                            i as int
                        ]@[j2 - 1],
                decreases width - j,
            {
                let value = states[i][j - 1];
                new_states[i][j] = value;
                j = j + 1;
            }
            i = i + 1;
        }
        proof {
            assert forall|k: int|
                0 <= k < model(new_states@).len() implies model(new_states@)[k] =~= target[k] by {
                lemma_model_entry(new_states@, k);
                lemma_model_entry(states@, k);
            }
            assert(model(new_states@) =~~= target);
        }
        new_states
    }

    /// The table after reading a normal spring.
    pub fn normal_states(&self, states: &Vec<Vec<usize>>) -> (r: Vec<Vec<usize>>)
        requires
            self.wf(),
            shaped(self.pattern@, states@),
            bounded(spec_normal(self.pattern@, model(states@))),
        ensures
            shaped(self.pattern@, r@),
            model(r@) =~~= spec_normal(self.pattern@, model(states@)),
    {
        let ghost target = spec_normal(self.pattern@, model(states@));
        let mut new_states = self.empty_states();
        let n = new_states.len();
        let mut i: usize = 0;
        while i < n
            invariant
                self.wf(),
                shaped(self.pattern@, states@),
                shaped(self.pattern@, new_states@),
                target == spec_normal(self.pattern@, model(states@)),
                bounded(target),
                n == self.pattern@.len() + 1,
                i <= n,
                forall|k: int, j: int|
                    0 <= k < new_states@.len() && 0 <= j < new_states@[k]@.len() && !(k < i && j
                        == 0) ==> #[trigger] new_states@[k]@[j] == 0usize,
                forall|k: int| 0 <= k < i ==> #[trigger] new_states@[k]@[0] as int == target[k][0],
            decreases n - i,
        {
            proof {
                lemma_model_entry(states@, i as int);
                if i >= 1 {
                    lemma_model_entry(states@, i as int - 1);
                }
                assert(target[i as int].len() >= 1);
                assert(target[i as int][0] == if i >= 1 {
                    model(states@)[i as int][0] + model(states@)[i as int - 1][model(
                        states@,
                    )[i as int - 1].len() - 1]
                } else {
                    model(states@)[i as int][0]
                });
            }
            let mut carried = states[i][0];
            if i != 0 {
                let prev_len = states[i - 1].len();
                let tail = states[i - 1][prev_len - 1];
                carried = carried + tail;
            }
            new_states[i][0] = carried;
            i = i + 1;
        }
        proof {
            assert forall|k: int|
                0 <= k < model(new_states@).len() implies model(new_states@)[k] =~= target[k] by {
                lemma_model_entry(new_states@, k);
            }
            assert(model(new_states@) =~~= target);
        }
        new_states
    }

    /// The table after reading an unknown spring.
    pub fn unknown_states(&self, states: &Vec<Vec<usize>>) -> (r: Vec<Vec<usize>>)
        requires
            self.wf(),
            shaped(self.pattern@, states@),
            bounded(spec_normal(self.pattern@, model(states@))),
            bounded(spec_unknown(self.pattern@, model(states@))),
        ensures
            shaped(self.pattern@, r@),
            model(r@) =~~= spec_unknown(self.pattern@, model(states@)),
    {
        let ghost target = spec_unknown(self.pattern@, model(states@));
        let broken = self.broken_states(states);
        let normal = self.normal_states(states);
        let mut new_states = self.empty_states();
        let n = new_states.len();
        let mut i: usize = 0;
        while i < n
            invariant
                self.wf(),
                shaped(self.pattern@, states@),
                shaped(self.pattern@, broken@),
                shaped(self.pattern@, normal@),
                shaped(self.pattern@, new_states@),
                target == spec_unknown(self.pattern@, model(states@)),
                bounded(target),
                model(broken@) == spec_broken(self.pattern@, model(states@)),
                model(normal@) == spec_normal(self.pattern@, model(states@)),
                n == self.pattern@.len() + 1,
                i <= n,
                forall|k: int, j: int|
                    0 <= k < i && 0 <= j < new_states@[k]@.len()
                        ==> #[trigger] new_states@[k]@[j] as int == target[k][j],
            decreases n - i,
        {
            let width = new_states[i].len();
            proof {
                lemma_model_entry(broken@, i as int);
                lemma_model_entry(normal@, i as int);
                assert(broken@[i as int]@.len() == width);
                assert(normal@[i as int]@.len() == width);
                assert(target[i as int].len() == width);
            }
            let mut j: usize = 0;
            while j < width
                invariant
                    i < n,
                    n == self.pattern@.len() + 1,
                    broken@.len() == n,
                    normal@.len() == n,
                    new_states@.len() == n,
                    j <= width,
                    width == new_states@[i as int]@.len(),
                    width == broken@[i as int]@.len(),
                    width == normal@[i as int]@.len(),
                    target == spec_unknown(self.pattern@, model(states@)),
                    bounded(target),
                    model(broken@) == spec_broken(self.pattern@, model(states@)),
                    model(normal@) == spec_normal(self.pattern@, model(states@)),
                    target[i as int].len() == width,
                    forall|k: int| 0 <= k < n ==> #[trigger] new_states@[k]@.len() == (if k
                        < self.pattern@.len() {
                        self.pattern@[k] + 1
                    } else {
                        1int
                    }),
                    forall|k: int, j2: int|
                        0 <= k < i && 0 <= j2 < new_states@[k]@.len()
                            ==> #[trigger] new_states@[k]@[j2] as int == target[k][j2],
                    forall|j2: int|
                        0 <= j2 < j ==> #[trigger] new_states@[i as int]@[j2] as int == target[
                            i as int
                        ][j2],
                decreases width - j,
            {
                let a = broken[i][j];
                let b = normal[i][j];
                proof {
                    lemma_model_entry(broken@, i as int);
                    lemma_model_entry(normal@, i as int);
                    assert(target[i as int][j as int] == model(broken@)[i as int][j as int]
                        + model(normal@)[i as int][j as int]);
                }
                new_states[i][j] = a + b;
                j = j + 1;
            }
            i = i + 1;
        }
        proof {
            assert forall|k: int|
                0 <= k < model(new_states@).len() implies model(new_states@)[k] =~= target[k] by {
                lemma_model_entry(new_states@, k);
            }
            assert(model(new_states@) =~~= target);
        }
        new_states
    }

    /// How many ways the row's unknown springs can be set so that the
    /// broken runs match the pattern exactly, in order.
    pub fn solve(&self) -> (r: usize)
        requires
            self.wf(),
            self.pattern@.len() >= 1,
            forall|k: int|
                0 <= k <= self.springs@.len() ==> bounded(
                    #[trigger] spec_run(self.pattern@, self.springs@, k),
                ),
            forall|k: int|
                0 <= k < self.springs@.len() ==> bounded(
                    spec_normal(
                        self.pattern@,
                        #[trigger] spec_run(self.pattern@, self.springs@, k),
                    ),
                ),
            spec_final_count(self.pattern@, self.springs@) <= usize::MAX,
        ensures
            r as int == spec_final_count(self.pattern@, self.springs@),
    {
        let mut states = self.empty_states();
        states[0][0] = 1;
        proof {
            assert forall|k: int|
                0 <= k < model(states@).len() implies model(states@)[k] =~= spec_run(
                self.pattern@,
                self.springs@,
                0,
            )[k] by {
                lemma_model_entry(states@, k);
            }
            assert(model(states@) =~~= spec_run(self.pattern@, self.springs@, 0));
        }
        let mut k: usize = 0;
        while k < self.springs.len()
            invariant
                self.wf(),
                self.pattern@.len() >= 1,
                forall|k2: int|
                    0 <= k2 <= self.springs@.len() ==> bounded(
                        #[trigger] spec_run(self.pattern@, self.springs@, k2),
                    ),
                forall|k2: int|
                    0 <= k2 < self.springs@.len() ==> bounded(
                        spec_normal(
                            self.pattern@,
                            #[trigger] spec_run(self.pattern@, self.springs@, k2),
                        ),
                    ),
                k <= self.springs@.len(),
                shaped(self.pattern@, states@),
                model(states@) == spec_run(self.pattern@, self.springs@, k as int),
            decreases self.springs@.len() - k,
        {
            let spring = self.springs[k];
            states = match spring {
                Some(true) => self.broken_states(&states),
                Some(false) => self.normal_states(&states),
                None => self.unknown_states(&states),
            };
            k = k + 1;
        }
        let states_len = states.len();
        let last_segment_len = states[states_len - 2].len();
        let a = states[states_len - 2][last_segment_len - 1];
        let b = states[states_len - 1][0];
        proof {
            lemma_model_entry(states@, states_len - 2);
            lemma_model_entry(states@, states_len - 1);
        }
        a + b
    }
}

} // verus!
