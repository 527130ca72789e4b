//! Sets of mutually disjoint intervals: all candidate values currently known
//! at one pipeline stage.

use vstd::prelude::*;
use vstd::seq_lib::*;
use vstd::multiset::Multiset;
use crate::interval::{Interval, range_vals};
use crate::table::{flat_vals, lemma_flat_vals_empty, lemma_flat_vals_push, lemma_to_ms_empty, lemma_flat_contains, lemma_flat_contains_member};

verus! {

/// Every member interval is well-formed and non-empty.
pub open spec fn wf_seq(s: Seq<Interval>) -> bool {
    forall|i: int| 0 <= i < s.len() ==> (#[trigger] s[i]).wf() && !s[i].is_empty()
}

/// Members are in ascending order and pairwise neither overlapping nor
/// touching.
pub open spec fn gaps_ok(s: Seq<Interval>) -> bool {
    forall|i: int| 0 <= i < s.len() - 1 ==> (#[trigger] s[i]).end < s[i + 1].start
}

/// Some member of `s` contains `v`.
pub open spec fn covered(s: Seq<Interval>, v: int) -> bool {
    exists|j: int| 0 <= j < s.len() && (#[trigger] s[j]).contains(v)
}

/// Appending one member extends coverage by exactly that member's values.
pub proof fn lemma_covered_push(s: Seq<Interval>, iv: Interval, v: int)
    ensures
        covered(s.push(iv), v) <==> covered(s, v) || iv.contains(v),
{
    if covered(s.push(iv), v) {
        let j = choose|j: int| 0 <= j < s.push(iv).len() && (#[trigger] s.push(iv)[j]).contains(v);
        if j < s.len() {
            assert(s[j].contains(v));
        } else {
            assert(s.push(iv)[j] == iv);
        }
    }
    if covered(s, v) {
        let j = choose|j: int| 0 <= j < s.len() && (#[trigger] s[j]).contains(v);
        assert(s.push(iv)[j].contains(v));
    }
    if iv.contains(v) {
        assert(s.push(iv)[s.len() as int].contains(v));
    }
}

/// The normal form: well-formed, sorted, and with a strict gap between
/// neighbours.
pub open spec fn normalized(s: Seq<Interval>) -> bool {
    wf_seq(s) && gaps_ok(s)
}

/// A collection of intervals carried between pipeline stages.
pub struct IntervalSet {
    pub intervals: Vec<Interval>,
}

impl IntervalSet {
    pub open spec fn wf(self) -> bool {
        wf_seq(self.intervals@)
    }

    /// All values covered by some member, as one sequence.
    pub open spec fn values(self) -> Seq<int> {
        flat_vals(self.intervals@)
    }

    /// The set of covered values.
    pub open spec fn val_set(self) -> Set<int> {
        self.values().to_set()
    }

    pub fn new() -> (r: IntervalSet)
        ensures
            r.wf(),
            r.values() == Seq::<int>::empty(),
            r.intervals@.len() == 0,
    {
        let r = IntervalSet { intervals: Vec::new() };
        proof {
            lemma_flat_vals_empty();
        }
        r
    }

    /// Adds the interval `[start, end)`; an empty range adds no values.
    pub fn push_range(&mut self, start: u64, end: u64)
        requires
            old(self).wf(),
            start <= end,
        ensures
            final(self).wf(),
            final(self).values() == old(self).values() + range_vals(start as int, end as int),
    {
        let ghost old_ivs = self.intervals@;
        let iv = Interval { start, end };
        if start < end {
            self.intervals.push(iv);
            proof {
                lemma_flat_vals_push(old_ivs, iv);
            }
        } else {
            proof {
                assert(range_vals(start as int, end as int) =~= Seq::<int>::empty());
                assert(self.values() =~= old(self).values() + range_vals(
                    start as int,
                    end as int,
                ));
            }
        }
    }

    /// An identical copy.
    pub fn duplicate(&self) -> (r: IntervalSet)
        ensures
            r.intervals@ == self.intervals@,
    {
        let mut ivs: Vec<Interval> = Vec::new();
        let n = self.intervals.len();
        let mut i: usize = 0;
        while i < n
            invariant
                0 <= i <= n,
                n == self.intervals@.len(),
                ivs@ == self.intervals@.subrange(0, i as int),
            decreases n - i,
        {
            ivs.push(self.intervals[i]);
            proof {
                assert(ivs@ =~= self.intervals@.subrange(0, i + 1));
            }
            i = i + 1;
        }
        proof {
            assert(ivs@ =~= self.intervals@);
        }
        IntervalSet { intervals: ivs }
    }

    /// True iff the members are already in normal form.
    fn check_normalized(&self) -> (r: bool)
        requires
            self.wf(),
        ensures
            r == normalized(self.intervals@),
    {
        let n = self.intervals.len();
        let mut i: usize = 0;
        let mut ok = true;
        while i + 1 < n
            invariant
                0 <= i <= n,
                n == self.intervals@.len(),
                n > 0 ==> i <= n - 1,
                ok == (forall|j: int|
                    0 <= j < i ==> (#[trigger] self.intervals@[j]).end < self.intervals@[j
                        + 1].start),
            decreases n - i,
        {
            if self.intervals[i].end >= self.intervals[i + 1].start {
                ok = false;
            }
            i = i + 1;
        }
        ok
    }

    /// Sorts the members by start, ascending, preserving the collection.
    fn sorted_members(&self) -> (r: Vec<Interval>)
        requires
            self.wf(),
        ensures
            r@.to_multiset() == self.intervals@.to_multiset(),
            wf_seq(r@),
            forall|p: int, q: int| 0 <= p < q < r@.len() ==> (#[trigger] r@[p]).start <= (
            #[trigger] r@[q]).start,
    {
        broadcast use vstd::seq_lib::group_to_multiset_ensures;
        broadcast use vstd::multiset::group_multiset_axioms;

        let mut pending = self.duplicate().intervals;
        let mut out: Vec<Interval> = Vec::new();
        proof {
            assert(out@.to_multiset().add(pending@.to_multiset()) =~= self.intervals@
                .to_multiset());
        }
        while pending.len() > 0
            invariant
                out@.to_multiset().add(pending@.to_multiset()) == self.intervals@.to_multiset(),
                wf_seq(out@),
                wf_seq(pending@),
                forall|p: int, q: int| 0 <= p < q < out@.len() ==> (#[trigger] out@[p]).start <= (
                #[trigger] out@[q]).start,
                forall|p: int, q: int|
                    0 <= p < out@.len() && 0 <= q < pending@.len() ==> (#[trigger] out@[p]).start
                        <= (#[trigger] pending@[q]).start,
            decreases pending@.len(),
        {
            let mut best: usize = 0;
            let mut c: usize = 1;
            while c < pending.len()
                invariant
                    0 <= best < c <= pending@.len(),
                    forall|q: int|
                        0 <= q < c ==> pending@[best as int].start <= (
                        #[trigger] pending@[q]).start,
                decreases pending@.len() - c,
            {
                if pending[c].start < pending[best].start {
                    best = c;
                }
                c = c + 1;
            }
            let ghost old_pending = pending@;
            let ghost old_out = out@;
            let chosen = pending.remove(best);
            out.push(chosen);
            proof {
                assert(old_pending[best as int] == chosen);
                assert(out@ == old_out.push(chosen));
                vstd::seq_lib::to_multiset_build(old_out, chosen);
                vstd::seq_lib::to_multiset_remove(old_pending, best as int);
                assert(out@.to_multiset() =~= old_out.to_multiset().insert(chosen));
                assert(old_pending.remove(best as int).to_multiset() =~= old_pending
                    .to_multiset().remove(chosen));
                assert(old_pending.contains(chosen));
                vstd::seq_lib::to_multiset_contains(old_pending, chosen);
                assert(old_pending.to_multiset().count(chosen) > 0);
                assert forall|x: Interval|
                    out@.to_multiset().add(pending@.to_multiset()).count(x) == self.intervals@
                        .to_multiset().count(x) by {
                    assert(old_out.to_multiset().add(old_pending.to_multiset()).count(x)
                        == self.intervals@.to_multiset().count(x));
                }
                assert(out@.to_multiset().add(pending@.to_multiset()) =~= self.intervals@
                    .to_multiset());
                assert(forall|q: int|
                    0 <= q < pending@.len() ==> chosen.start <= (#[trigger] pending@[q]).start);
                assert(wf_seq(pending@));
            }
        }
        out
    }

    /// Normal form of this collection: members sorted by start with
    /// overlapping or touching neighbours merged. The covered values are
    /// unchanged, and a collection already in normal form comes back
    /// identical — so normalizing twice yields the same result as
    /// normalizing once.
    pub fn normalize(&self) -> (r: IntervalSet)
        requires
            self.wf(),
        ensures
            r.wf(),
            normalized(r.intervals@),
            r.val_set() == self.val_set(),
            normalized(self.intervals@) ==> r.intervals@ == self.intervals@,
    {
        broadcast use vstd::seq_lib::group_to_multiset_ensures;
        broadcast use vstd::multiset::group_multiset_axioms;

        if self.check_normalized() {
            let r = self.duplicate();
            return r;
        }
        let sorted = self.sorted_members();
        proof {
            lemma_ms_val_set(self.intervals@, sorted@);
        }
        let mut out: Vec<Interval> = Vec::new();
        let n = sorted.len();
        let mut i: usize = 0;
        while i < n
            invariant
                0 <= i <= n,
                n == sorted@.len(),
                wf_seq(sorted@),
                forall|p: int, q: int|
                    0 <= p < q < sorted@.len() ==> (#[trigger] sorted@[p]).start <= (
                    #[trigger] sorted@[q]).start,
                normalized(out@),
                out@.len() > 0 ==> forall|q: int|
                    i <= q < sorted@.len() ==> out@[out@.len() - 1].start <= (
                    #[trigger] sorted@[q]).start,
                forall|v: int| covered(out@, v) <==> covered(sorted@.subrange(0, i as int), v),
            decreases n - i,
        {
            let iv = sorted[i];
            let ghost old_out = out@;
            let ghost done = sorted@.subrange(0, i as int);
            proof {
                assert(iv == sorted@[i as int]);
                assert(sorted@.subrange(0, i + 1) =~= done.push(iv));
            }
            if out.len() == 0 {
                out.push(iv);
                proof {
                    assert forall|v: int|
                        covered(out@, v) <==> covered(done.push(iv), v) by {
                        lemma_covered_push(old_out, iv, v);
                        lemma_covered_push(done, iv, v);
                    }
                }
            } else {
                let last = out.len() - 1;
                let cur = out[last];
                proof {
                    assert(cur == old_out[old_out.len() - 1]);
                    assert(cur.start <= iv.start);
                    assert(old_out =~= old_out.drop_last().push(cur));
                }
                if iv.start <= cur.end {
                    if iv.end > cur.end {
                        let merged = Interval { start: cur.start, end: iv.end };
                        let _ = out.pop();
                        out.push(merged);
                        proof {
                            assert(out@ =~= old_out.drop_last().push(merged));
                            assert forall|v: int|
                                covered(out@, v) <==> covered(done.push(iv), v) by {
                                lemma_covered_push(old_out.drop_last(), merged, v);
                                lemma_covered_push(old_out.drop_last(), cur, v);
                                lemma_covered_push(done, iv, v);
                                assert(merged.contains(v) <==> cur.contains(v) || iv.contains(v));
                                assert(covered(old_out, v) <==> covered(done, v));
                            }
                        }
                    } else {
                        // iv lies inside the last member; coverage is unchanged.
                        proof {
                            assert forall|v: int|
                                covered(out@, v) <==> covered(done.push(iv), v) by {
                                lemma_covered_push(done, iv, v);
                                if iv.contains(v) {
                                    assert(cur.contains(v));
                                    assert(old_out[old_out.len() - 1].contains(v));
                                }
                            }
                        }
                    }
                } else {
                    out.push(iv);
                    proof {
                        assert forall|v: int|
                            covered(out@, v) <==> covered(done.push(iv), v) by {
                            lemma_covered_push(old_out, iv, v);
                            lemma_covered_push(done, iv, v);
                        }
                    }
                }
            }
            i = i + 1;
        }
        let ghost out_view = out@;
        proof {
            assert(sorted@.subrange(0, n as int) =~= sorted@);
            assert(forall|v: int| covered(out_view, v) <==> covered(sorted@, v));
        }
        let r = IntervalSet { intervals: out };
        proof {
            broadcast use vstd::set::group_set_axioms;

            assert(r.intervals@ == out_view);
            lemma_ms_val_set(self.intervals@, sorted@);
            assert forall|v: int| r.val_set().contains(v) <==> self.val_set().contains(
                v,
            ) by {
                if flat_vals(out_view).contains(v) {
                    lemma_flat_contains(out_view, v);
                    assert(covered(out_view, v));
                    assert(covered(sorted@, v));
                    let j2 = choose|j2: int|
                        0 <= j2 < sorted@.len() && (#[trigger] sorted@[j2]).contains(v);
                    lemma_flat_contains_member(sorted@, j2, v);
                    assert(flat_vals(self.intervals@).contains(v));
                }
                if flat_vals(self.intervals@).contains(v) {
                    assert(flat_vals(sorted@).contains(v));
                    lemma_flat_contains(sorted@, v);
                    assert(covered(sorted@, v));
                    assert(covered(out_view, v));
                    let j = choose|j: int|
                        0 <= j < out_view.len() && (#[trigger] out_view[j]).contains(v);
                    lemma_flat_contains_member(out_view, j, v);
                }
            }
            assert(r.val_set() =~= self.val_set());
        }
        r
    }
}

/// Interval sequences with equal multisets cover the same values.
pub proof fn lemma_ms_val_set(a: Seq<Interval>, b: Seq<Interval>)
    requires
        a.to_multiset() == b.to_multiset(),
    ensures
        forall|v: int| flat_vals(a).contains(v) <==> flat_vals(b).contains(v),
{
    broadcast use vstd::seq_lib::group_to_multiset_ensures;
    broadcast use vstd::multiset::group_multiset_axioms;

    assert forall|v: int| flat_vals(a).contains(v) implies flat_vals(b).contains(v) by {
        lemma_flat_contains(a, v);
        let i = choose|i: int| 0 <= i < a.len() && (#[trigger] a[i]).contains(v);
        assert(a.contains(a[i]));
        assert(a.to_multiset().count(a[i]) > 0);
        assert(b.to_multiset().count(a[i]) > 0);
        assert(b.contains(a[i]));
        let j = choose|j: int| 0 <= j < b.len() && b[j] == a[i];
        lemma_flat_contains_member(b, j, v);
    }
    assert forall|v: int| flat_vals(b).contains(v) implies flat_vals(a).contains(v) by {
        lemma_flat_contains(b, v);
        let i = choose|i: int| 0 <= i < b.len() && (#[trigger] b[i]).contains(v);
        assert(b.contains(b[i]));
        assert(b.to_multiset().count(b[i]) > 0);
        assert(a.to_multiset().count(b[i]) > 0);
        assert(a.contains(b[i]));
        let j = choose|j: int| 0 <= j < a.len() && a[j] == b[i];
        lemma_flat_contains_member(a, j, v);
    }
}

} // verus!
