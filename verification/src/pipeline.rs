//! The ordered list of translation tables: folds an interval set through
//! every stage in sequence and reports the minimum reachable location.

use vstd::prelude::*;
use vstd::seq_lib::*;
use crate::interval::range_vals;
use crate::interval_set::IntervalSet;
use crate::propagator;
use crate::table::{RangeRule, RangeTable, lookup_in, flat_vals, lemma_flat_vals_empty, lemma_flat_contains, lemma_flat_contains_member};

verus! {

/// Where `v` ends up after passing through every stage's rules in order.
pub open spec fn pipe_through(tables: Seq<Seq<RangeRule>>, v: int) -> int
    decreases tables.len(),
{
    if tables.len() == 0 {
        v
    } else {
        pipe_through(tables.drop_first(), lookup_in(tables[0], v))
    }
}

/// Appending one more stage composes its lookup after the rest.
pub proof fn lemma_pipe_push(tables: Seq<Seq<RangeRule>>, t: Seq<RangeRule>, v: int)
    ensures
        pipe_through(tables.push(t), v) == lookup_in(t, pipe_through(tables, v)),
    decreases tables.len(),
{
    if tables.len() == 0 {
        assert(tables.push(t)[0] == t);
        assert(tables.push(t).drop_first() =~= Seq::<Seq<RangeRule>>::empty());
        assert(pipe_through(tables.push(t), v) == pipe_through(
            Seq::<Seq<RangeRule>>::empty(),
            lookup_in(t, v),
        ));
        assert(pipe_through(Seq::<Seq<RangeRule>>::empty(), lookup_in(t, v)) == lookup_in(t, v));
        assert(pipe_through(tables, v) == v);
    } else {
        assert(tables.push(t)[0] == tables[0]);
        assert(tables.push(t).drop_first() =~= tables.drop_first().push(t));
        assert(pipe_through(tables.push(t), v) == pipe_through(
            tables.drop_first().push(t),
            lookup_in(tables[0], v),
        ));
        lemma_pipe_push(tables.drop_first(), t, lookup_in(tables[0], v));
        assert(pipe_through(tables, v) == pipe_through(
            tables.drop_first(),
            lookup_in(tables[0], v),
        ));
    }
}

/// `m` is the least location reachable from some seed value.
pub open spec fn is_min_location(tables: Seq<Seq<RangeRule>>, seed_vals: Seq<int>, m: int) -> bool {
    &&& exists|i: int|
        0 <= i < seed_vals.len() && m == pipe_through(tables, #[trigger] seed_vals[i])
    &&& forall|i: int|
        0 <= i < seed_vals.len() ==> m <= pipe_through(tables, #[trigger] seed_vals[i])
}

/// Single-value equivalence: on a seed set holding exactly the unit interval
/// `[v, v + 1)`, the pipeline's minimum is precisely the value obtained by
/// composing each stage's lookup — translate where covered, identity
/// elsewhere — directly on `v`.
pub proof fn lemma_single_value_equivalence(tables: Seq<Seq<RangeRule>>, v: u64, m: int)
    requires
        is_min_location(tables, range_vals(v as int, v as int + 1), m),
    ensures
        m == pipe_through(tables, v as int),
{
    let vals = range_vals(v as int, v as int + 1);
    assert(vals.len() == 1);
    assert(vals[0] == v as int);
}

/// Monotonic minimum: adding further seed values never increases the
/// reported minimum location.
pub proof fn lemma_monotonic_minimum(
    tables: Seq<Seq<RangeRule>>,
    vals: Seq<int>,
    extra: Seq<int>,
    m1: int,
    m2: int,
)
    requires
        is_min_location(tables, vals, m1),
        is_min_location(tables, vals + extra, m2),
    ensures
        m2 <= m1,
{
    let i = choose|i: int| 0 <= i < vals.len() && m1 == pipe_through(tables, #[trigger] vals[i]);
    assert((vals + extra)[i] == vals[i]);
}

/// The ordered sequence of stages, fixed at construction.
pub struct Pipeline {
    pub tables: Vec<RangeTable>,
}

impl Pipeline {
    pub open spec fn wf(self) -> bool {
        forall|i: int| 0 <= i < self.tables@.len() ==> (#[trigger] self.tables@[i]).wf()
    }

    /// The stages as plain rule sequences.
    pub open spec fn tables_view(self) -> Seq<Seq<RangeRule>> {
        self.tables@.map_values(|t: RangeTable| t.rules@)
    }

    pub fn new(tables: Vec<RangeTable>) -> (r: Pipeline)
        ensures
            r.tables@ == tables@,
    {
        Pipeline { tables }
    }

    /// The single-value path: pushes one value through every stage in order.
    pub fn trace_value(&self, v: u64) -> (r: u64)
        requires
            self.wf(),
        ensures
            r == pipe_through(self.tables_view(), v as int),
    {
        let mut cur = v;
        let n = self.tables.len();
        let mut k: usize = 0;
        proof {
            assert(self.tables_view().subrange(0, 0) =~= Seq::<Seq<RangeRule>>::empty());
        }
        while k < n
            invariant
                0 <= k <= n,
                n == self.tables@.len(),
                self.wf(),
                cur as int == pipe_through(self.tables_view().subrange(0, k as int), v as int),
            decreases n - k,
        {
            let ghost done = self.tables_view().subrange(0, k as int);
            cur = self.tables[k].lookup_value(cur);
            proof {
                assert(self.tables_view().subrange(0, k + 1) =~= done.push(
                    self.tables@[k as int].rules@,
                ));
                lemma_pipe_push(done, self.tables@[k as int].rules@, v as int);
            }
            k = k + 1;
        }
        proof {
            assert(self.tables_view().subrange(0, n as int) =~= self.tables_view());
        }
        cur
    }

    /// Folds the seed set through every stage, then reduces to the minimum
    /// interval start. Returns `None` exactly when the seed set is empty.
    pub fn solve(&self, seeds: &IntervalSet) -> (r: Option<u64>)
        requires
            self.wf(),
            seeds.wf(),
        ensures
            match r {
                Some(m) => is_min_location(self.tables_view(), seeds.values(), m as int),
                None => seeds.values().len() == 0,
            },
            r is Some <==> seeds.values().len() > 0,
    {
        broadcast use vstd::multiset::group_multiset_axioms;
        broadcast use vstd::seq_lib::group_to_multiset_ensures;
        broadcast use vstd::set::group_set_axioms;

        let mut current = seeds.duplicate();
        let n = self.tables.len();
        let mut k: usize = 0;
        proof {
            assert(self.tables_view().subrange(0, 0) =~= Seq::<Seq<RangeRule>>::empty());
            assert forall|x: int| current.values().contains(x) implies exists|i: int|
                0 <= i < seeds.values().len() && x == pipe_through(
                    self.tables_view().subrange(0, 0),
                    #[trigger] seeds.values()[i],
                ) by {
                let idx = choose|idx: int|
                    0 <= idx < seeds.values().len() && seeds.values()[idx] == x;
                assert(x == pipe_through(self.tables_view().subrange(0, 0), seeds.values()[idx]));
            }
        }
        while k < n
            invariant
                0 <= k <= n,
                n == self.tables@.len(),
                self.wf(),
                seeds.wf(),
                current.wf(),
                forall|x: int|
                    current.values().contains(x) ==> exists|i: int|
                        0 <= i < seeds.values().len() && x == pipe_through(
                            self.tables_view().subrange(0, k as int),
                            #[trigger] seeds.values()[i],
                        ),
                forall|i: int|
                    0 <= i < seeds.values().len() ==> current.values().contains(
                        pipe_through(
                            self.tables_view().subrange(0, k as int),
                            #[trigger] seeds.values()[i],
                        ),
                    ),
            decreases n - k,
        {
            let ghost done = self.tables_view().subrange(0, k as int);
            let ghost t = self.tables@[k as int];
            let ghost cur_vals = current.values();
            let applied = propagator::apply(&self.tables[k], &current);
            let next = applied.normalize();
            proof {
                assert(self.tables_view().subrange(0, k + 1) =~= done.push(t.rules@));
                // The applied set covers exactly the images of the current values.
                assert forall|x: int|
                    next.values().contains(x) <==> t.img_of(cur_vals).contains(x) by {
                    assert(applied.values().to_multiset() == t.img_of(cur_vals).to_multiset());
                    vstd::seq_lib::to_multiset_contains(applied.values(), x);
                    vstd::seq_lib::to_multiset_contains(t.img_of(cur_vals), x);
                    assert(next.val_set() == applied.val_set());
                    assert(next.values().contains(x) == next.val_set().contains(x));
                    assert(applied.values().contains(x) == applied.val_set().contains(x));
                }
                assert forall|x: int| next.values().contains(x) implies exists|i: int|
                    0 <= i < seeds.values().len() && x == pipe_through(
                        self.tables_view().subrange(0, k + 1),
                        #[trigger] seeds.values()[i],
                    ) by {
                    let idx = choose|idx: int|
                        0 <= idx < cur_vals.len() && t.img_of(cur_vals)[idx] == x;
                    assert(x == t.lookup(cur_vals[idx]));
                    assert(cur_vals.contains(cur_vals[idx]));
                    let i = choose|i: int|
                        0 <= i < seeds.values().len() && cur_vals[idx] == pipe_through(
                            done,
                            #[trigger] seeds.values()[i],
                        );
                    lemma_pipe_push(done, t.rules@, seeds.values()[i]);
                    assert(x == pipe_through(done.push(t.rules@), seeds.values()[i]));
                }
                assert forall|i: int| 0 <= i < seeds.values().len() implies next.values().contains(
                    pipe_through(
                        self.tables_view().subrange(0, k + 1),
                        #[trigger] seeds.values()[i],
                    ),
                ) by {
                    lemma_pipe_push(done, t.rules@, seeds.values()[i]);
                    let y = pipe_through(done, seeds.values()[i]);
                    assert(cur_vals.contains(y));
                    let idx = choose|idx: int| 0 <= idx < cur_vals.len() && cur_vals[idx] == y;
                    assert(t.img_of(cur_vals)[idx] == t.lookup(y));
                    assert(t.img_of(cur_vals).contains(t.lookup(y)));
                }
            }
            current = next;
            k = k + 1;
        }
        proof {
            assert(self.tables_view().subrange(0, n as int) =~= self.tables_view());
        }
        let m = current.intervals.len();
        if m == 0 {
            proof {
                lemma_flat_vals_empty();
                assert(current.intervals@ =~= Seq::<crate::interval::Interval>::empty());
                if seeds.values().len() > 0 {
                    let y = pipe_through(self.tables_view(), seeds.values()[0]);
                    assert(current.values().contains(y));
                    assert(false);
                }
            }
            return None;
        }
        let mut best: u64 = current.intervals[0].start;
        let mut j: usize = 1;
        proof {
            assert(current.intervals@[0].start == best);
        }
        while j < m
            invariant
                1 <= j <= m,
                m == current.intervals@.len(),
                exists|p: int| 0 <= p < m && best == (#[trigger] current.intervals@[p]).start,
                forall|p: int| 0 <= p < j ==> best <= (#[trigger] current.intervals@[p]).start,
            decreases m - j,
        {
            if current.intervals[j].start < best {
                best = current.intervals[j].start;
            }
            j = j + 1;
        }
        proof {
            // best is itself a reachable value.
            let p = choose|p: int| 0 <= p < m && best == (#[trigger] current.intervals@[p]).start;
            assert(current.intervals@[p].contains(best as int));
            lemma_flat_contains_member(current.intervals@, p, best as int);
            assert(current.values().contains(best as int));
            // and no reachable value is smaller.
            assert forall|i: int| 0 <= i < seeds.values().len() implies best as int
                <= pipe_through(self.tables_view(), #[trigger] seeds.values()[i]) by {
                let y = pipe_through(self.tables_view(), seeds.values()[i]);
                assert(current.values().contains(y));
                lemma_flat_contains(current.intervals@, y);
                let q = choose|q: int|
                    0 <= q < current.intervals@.len() && (#[trigger] current.intervals@[q])
                        .contains(y);
                assert(best <= current.intervals@[q].start);
            }
            // the witness seed for the exists clause
            let i0 = choose|i: int|
                0 <= i < seeds.values().len() && best as int == pipe_through(
                    self.tables_view(),
                    #[trigger] seeds.values()[i],
                );
        }
        Some(best)
    }
}

} // verus!
