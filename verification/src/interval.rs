//! Half-open numeric intervals `[start, end)`, the atomic unit flowing
//! through the remapping pipeline.

use vstd::prelude::*;

verus! {

/// The ascending sequence of integers in `[lo, hi)`; empty when `hi <= lo`.
pub open spec fn range_vals(lo: int, hi: int) -> Seq<int> {
    Seq::new(if hi >= lo { (hi - lo) as nat } else { 0 }, |i: int| lo + i)
}

/// Splitting a range at an interior point concatenates the two halves.
pub proof fn lemma_range_vals_split(lo: int, mid: int, hi: int)
    requires
        lo <= mid <= hi,
    ensures
        range_vals(lo, hi) == range_vals(lo, mid) + range_vals(mid, hi),
{
    assert(range_vals(lo, hi) =~= range_vals(lo, mid) + range_vals(mid, hi));
}

/// Shifting every value of a range by a constant offset yields the shifted range.
pub proof fn lemma_range_vals_shift(lo: int, hi: int, off: int)
    requires
        lo <= hi,
    ensures
        range_vals(lo, hi).map_values(|v: int| v + off) == range_vals(lo + off, hi + off),
{
    assert(range_vals(lo, hi).map_values(|v: int| v + off) =~= range_vals(lo + off, hi + off));
}

/// A half-open numeric range `[start, end)`.
#[derive(Clone, Copy, PartialEq, Eq, Structural, Debug)]
pub struct Interval {
    pub start: u64,
    pub end: u64,
}

impl Interval {
    /// Well-formed: the bounds are ordered.
    pub open spec fn wf(self) -> bool {
        self.start <= self.end
    }

    /// An interval is empty exactly when its bounds coincide.
    pub open spec fn is_empty(self) -> bool {
        self.start == self.end
    }

    /// `v` lies in `[start, end)`.
    pub open spec fn contains(self, v: int) -> bool {
        self.start <= v < self.end
    }

    /// The values of the interval, in ascending order.
    pub open spec fn vals(self) -> Seq<int> {
        range_vals(self.start as int, self.end as int)
    }

    pub fn new(start: u64, end: u64) -> (r: Interval)
        requires
            start <= end,
        ensures
            r == (Interval { start, end }),
    {
        Interval { start, end }
    }
}

} // verus!
