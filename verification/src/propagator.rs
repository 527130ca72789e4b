//! Lifts a table's single-interval mapping to whole interval sets.

use vstd::prelude::*;
use vstd::seq_lib::*;
use crate::interval::Interval;
use crate::interval_set::{IntervalSet, wf_seq};
use crate::table::{
    RangeTable,
    flat_vals,
    lemma_flat_vals_empty,
    lemma_flat_vals_push,
    lemma_flat_vals_add,
    lemma_to_ms_empty,
};

verus! {

/// Applies one table to every member of `set`: the result covers, with the
/// same multiplicities, exactly the images under the table's lookup of the
/// values `set` covers. The result is not necessarily in normal form, and
/// each member splits into at most one piece per rule boundary, so the
/// member count grows by at most a factor of one plus twice the rule count.
pub fn apply(table: &RangeTable, set: &IntervalSet) -> (r: IntervalSet)
    requires
        table.wf(),
        set.wf(),
    ensures
        r.wf(),
        r.values().to_multiset() == table.img_of(set.values()).to_multiset(),
        r.intervals@.len() <= set.intervals@.len() * (1 + 2 * table.rules@.len()),
{
    broadcast use vstd::multiset::group_multiset_axioms;
    broadcast use vstd::seq_lib::group_to_multiset_ensures;

    let mut out: Vec<Interval> = Vec::new();
    let n = set.intervals.len();
    let mut i: usize = 0;
    proof {
        lemma_flat_vals_empty();
        lemma_to_ms_empty();
        assert(set.intervals@.subrange(0, 0) =~= Seq::<Interval>::empty());
        assert(table.img_of(flat_vals(set.intervals@.subrange(0, 0))) =~= Seq::<int>::empty());
        assert(flat_vals(out@).to_multiset() =~= table.img_of(
            flat_vals(set.intervals@.subrange(0, 0)),
        ).to_multiset());
    }
    while i < n
        invariant
            0 <= i <= n,
            n == set.intervals@.len(),
            table.wf(),
            set.wf(),
            wf_seq(out@),
            flat_vals(out@).to_multiset() == table.img_of(
                flat_vals(set.intervals@.subrange(0, i as int)),
            ).to_multiset(),
            out@.len() <= i * (1 + 2 * table.rules@.len()),
        decreases n - i,
    {
        let iv = set.intervals[i];
        let mut chunk = table.map_interval(iv);
        let ghost old_out = out@;
        let ghost chunk_view = chunk@;
        out.append(&mut chunk);
        proof {
            let done = set.intervals@.subrange(0, i as int);
            assert(set.intervals@.subrange(0, i + 1) =~= done.push(iv));
            lemma_flat_vals_push(done, iv);
            lemma_flat_vals_add(old_out, chunk_view);
            lemma_multiset_commutative(flat_vals(old_out), flat_vals(chunk_view));
            assert(table.img_of(flat_vals(done) + iv.vals()) =~= table.img_of(flat_vals(done))
                + table.img_of(iv.vals()));
            lemma_multiset_commutative(table.img_of(flat_vals(done)), table.img_of(iv.vals()));
            assert(flat_vals(out@).to_multiset() =~= table.img_of(
                flat_vals(set.intervals@.subrange(0, i + 1)),
            ).to_multiset());
            assert(wf_seq(out@));
            assert((i + 1) * (1 + 2 * table.rules@.len()) == i * (1 + 2 * table.rules@.len())
                + (1 + 2 * table.rules@.len())) by (nonlinear_arith);
        }
        i = i + 1;
    }
    proof {
        assert(set.intervals@.subrange(0, n as int) =~= set.intervals@);
    }
    IntervalSet { intervals: out }
}

} // verus!
