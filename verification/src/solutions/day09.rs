//! Sequence extrapolation: each line's numbers are repeatedly differenced
//! until the differences vanish, then the next value on the right (or the
//! previous one on the left) is reconstructed from the stack of levels.

use vstd::prelude::*;
use crate::text::{chars_of, lines_of, tokens_of, slice_chars, parse_i32, spec_lines, spec_tokens, spec_parse_i32};

verus! {

/// The sequence of neighbouring differences.
pub open spec fn spec_diff(s: Seq<int>) -> Seq<int> {
    Seq::new(
        if s.len() == 0 {
            0
        } else {
            (s.len() - 1) as nat
        },
        |i: int| s[i + 1] - s[i],
    )
}

pub open spec fn is_zero_seq(s: Seq<int>) -> bool {
    forall|i: int| 0 <= i < s.len() ==> s[i] == 0
}

/// The value extrapolated to the right: the sum of every level's last entry.
pub open spec fn pr_right(s: Seq<int>) -> int
    decreases s.len(),
{
    if s.len() == 0 {
        0
    } else {
        s.last() + pr_right(spec_diff(s))
    }
}

/// The value extrapolated to the left: alternating differences of every
/// level's first entry.
pub open spec fn pr_left(s: Seq<int>) -> int
    decreases s.len(),
{
    if s.len() == 0 {
        0
    } else {
        s[0] - pr_left(spec_diff(s))
    }
}

/// Extrapolating an all-zero level yields zero, in both directions.
pub proof fn lemma_pr_zero(s: Seq<int>)
    requires
        is_zero_seq(s),
    ensures
        pr_right(s) == 0,
        pr_left(s) == 0,
    decreases s.len(),
{
    if s.len() > 0 {
        assert(is_zero_seq(spec_diff(s)));
        lemma_pr_zero(spec_diff(s));
    }
}

/// The `k`-th difference level of a base sequence.
pub open spec fn level(s: Seq<int>, k: int) -> Seq<int>
    decreases k,
{
    if k <= 0 {
        s
    } else {
        spec_diff(level(s, k - 1))
    }
}

pub open spec fn fits_i32(x: int) -> bool {
    i32::MIN <= x <= i32::MAX
}

pub open spec fn seq_fits(s: Seq<int>) -> bool {
    forall|i: int| 0 <= i < s.len() ==> fits_i32(#[trigger] s[i])
}

/// Every difference level of the line, and every partially extrapolated
/// value, stays within the signed 32-bit domain.
pub open spec fn line_fits(s: Seq<int>) -> bool {
    forall|k: int|
        0 <= k <= s.len() ==> seq_fits(#[trigger] level(s, k)) && fits_i32(pr_right(level(s, k)))
            && fits_i32(pr_left(level(s, k)))
}

/// The signed values of a vector, as mathematical integers.
pub open spec fn int_view(v: Seq<i32>) -> Seq<int> {
    v.map_values(|x: i32| x as int)
}

/// One line's number sequence.
pub struct NumSeq {
    pub seq: Vec<i32>,
}

/// The numbers a line declares, or `None` when a token does not parse.
pub open spec fn line_vals(line: Seq<char>) -> Option<Seq<i32>> {
    vals_of_tokens(line, spec_tokens(line))
}

pub open spec fn vals_of_tokens(line: Seq<char>, toks: Seq<(int, int)>) -> Option<Seq<i32>>
    decreases toks.len(),
{
    if toks.len() == 0 {
        Some(Seq::empty())
    } else {
        match spec_parse_i32(line.subrange(toks.last().0, toks.last().1)) {
            Some(v) => match vals_of_tokens(line, toks.drop_last()) {
                Some(vs) => Some(vs.push(v)),
                None => None,
            },
            None => None,
        }
    }
}

/// An unparsable token spoils the whole line.
pub proof fn lemma_vals_of_tokens_none(line: Seq<char>, toks: Seq<(int, int)>, i: int)
    requires
        0 <= i < toks.len(),
        spec_parse_i32(line.subrange(toks[i].0, toks[i].1)) is None,
    ensures
        vals_of_tokens(line, toks) is None,
    decreases toks.len(),
{
    if i < toks.len() - 1 {
        assert(toks.drop_last()[i] == toks[i]);
        lemma_vals_of_tokens_none(line, toks.drop_last(), i);
    }
}

impl NumSeq {
    /// Reads one line's whitespace-separated numbers.
    pub fn from_line(line: &Vec<char>) -> (r: Option<NumSeq>)
        ensures
            match r {
                Some(ns) => line_vals(line@) == Some(ns.seq@),
                None => line_vals(line@) is None,
            },
    {
        let toks = tokens_of(line);
        let n = toks.len();
        let mut out: Vec<i32> = Vec::new();
        let mut i: usize = 0;
        proof {
            assert(spec_tokens(line@).take(0) =~= Seq::<(int, int)>::empty());
        }
        while i < n
            invariant
                0 <= i <= n,
                n == toks@.len(),
                n == spec_tokens(line@).len(),
                forall|k: int|
                    0 <= k < toks@.len() ==> (#[trigger] toks@[k]).0 as int == spec_tokens(
                        line@,
                    )[k].0 && toks@[k].1 as int == spec_tokens(line@)[k].1,
                forall|k: int|
                    0 <= k < toks@.len() ==> 0 <= (#[trigger] toks@[k]).0 < toks@[k].1
                        <= line@.len(),
                vals_of_tokens(line@, spec_tokens(line@).take(i as int)) == Some(out@),
            decreases n - i,
        {
            let (a, b) = toks[i];
            let piece = slice_chars(line, a, b);
            proof {
                assert(spec_tokens(line@).take(i + 1).drop_last() =~= spec_tokens(line@).take(
                    i as int,
                ));
                assert(spec_tokens(line@).take(i + 1).last() == spec_tokens(line@)[i as int]);
            }
            match parse_i32(&piece) {
                Some(v) => {
                    out.push(v);
                },
                None => {
                    proof {
                        lemma_vals_of_tokens_none(line@, spec_tokens(line@), i as int);
                    }
                    return None;
                },
            }
            i = i + 1;
        }
        proof {
            assert(spec_tokens(line@).take(n as int) =~= spec_tokens(line@));
        }
        Some(NumSeq { seq: out })
    }

    /// The sequence of neighbouring differences.
    pub fn diff(&self) -> (r: NumSeq)
        requires
            seq_fits(spec_diff(int_view(self.seq@))),
        ensures
            int_view(r.seq@) == spec_diff(int_view(self.seq@)),
    {
        let n = self.seq.len();
        let mut out: Vec<i32> = Vec::new();
        if n == 0 {
            proof {
                assert(int_view(out@) =~= spec_diff(int_view(self.seq@)));
            }
            return NumSeq { seq: out };
        }
        let mut i: usize = 0;
        while i + 1 < n
            invariant
                0 <= i <= n - 1,
                n >= 1,
                n == self.seq@.len(),
                seq_fits(spec_diff(int_view(self.seq@))),
                out@.len() == i,
                int_view(out@) == spec_diff(int_view(self.seq@)).take(i as int),
            decreases n - i,
        {
            proof {
                assert(spec_diff(int_view(self.seq@))[i as int] == self.seq@[i + 1] - self.seq@[
                    i as int
                ]);
                assert(fits_i32(spec_diff(int_view(self.seq@))[i as int]));
            }
            let wide: i64 = (self.seq[i + 1] as i64) - (self.seq[i] as i64);
            out.push(wide as i32);
            proof {
                assert(int_view(out@) =~= spec_diff(int_view(self.seq@)).take(i + 1));
            }
            i = i + 1;
        }
        proof {
            assert(spec_diff(int_view(self.seq@)).take(n - 1) =~= spec_diff(
                int_view(self.seq@),
            ));
        }
        NumSeq { seq: out }
    }

    /// True iff every entry is zero.
    pub fn is_zero(&self) -> (r: bool)
        ensures
            r == is_zero_seq(int_view(self.seq@)),
    {
        let n = self.seq.len();
        let mut i: usize = 0;
        while i < n
            invariant
                0 <= i <= n,
                n == self.seq@.len(),
                forall|j: int| 0 <= j < i ==> int_view(self.seq@)[j] == 0,
            decreases n - i,
        {
            if self.seq[i] != 0 {
                proof {
                    assert(int_view(self.seq@)[i as int] != 0);
                }
                return false;
            }
            i = i + 1;
        }
        true
    }

    /// The last entry, if any.
    pub fn last(&self) -> (r: Option<i32>)
        ensures
            match r {
                Some(v) => self.seq@.len() > 0 && v == self.seq@.last(),
                None => self.seq@.len() == 0,
            },
    {
        if self.seq.len() == 0 {
            None
        } else {
            Some(self.seq[self.seq.len() - 1])
        }
    }
}

/// The stack of difference levels of one line, grown until the differences
/// vanish.
pub struct History {
    pub sequences: Vec<NumSeq>,
    pub complete: bool,
}

impl History {
    /// The base sequence the history was started from.
    pub open spec fn base(self) -> Seq<int> {
        int_view(self.sequences@[0].seq@)
    }

    /// The members are exactly the difference levels of the base, grown one
    /// at a time; the completion flag reports whether the last level is all
    /// zero, and every interior level reached by a step was not.
    pub open spec fn wf(self) -> bool {
        &&& self.sequences@.len() >= 1
        &&& self.sequences@.len() <= self.base().len() + 2
        &&& forall|k: int|
            0 <= k < self.sequences@.len() ==> int_view(
                (#[trigger] self.sequences@[k]).seq@,
            ) == level(self.base(), k)
        &&& self.sequences@.len() >= 2 ==> self.complete == is_zero_seq(
            level(self.base(), self.sequences@.len() - 1),
        )
        &&& self.sequences@.len() == 1 ==> !self.complete
        &&& forall|j: int|
            1 <= j <= self.sequences@.len() - 2 ==> !is_zero_seq(#[trigger] level(self.base(), j))
    }

    /// A history over a non-empty base never outgrows the base's length.
    pub proof fn lemma_len_bound(self)
        requires
            self.wf(),
            self.base().len() >= 1,
        ensures
            self.sequences@.len() <= self.base().len() + 1,
    {
        if self.sequences@.len() == self.base().len() + 2 {
            lemma_level_len(self.base(), self.base().len() as int);
            assert(is_zero_seq(level(self.base(), self.base().len() as int)));
            assert(!is_zero_seq(level(self.base(), self.base().len() as int)));
        }
    }

    pub fn new(seq: NumSeq) -> (r: History)
        ensures
            r.wf(),
            !r.complete,
            r.base() == int_view(seq.seq@),
            r.sequences@.len() == 1,
    {
        let mut sequences: Vec<NumSeq> = Vec::new();
        sequences.push(seq);
        let r = History { sequences, complete: false };
        proof {
            assert(r.sequences@[0].seq@ == r.sequences@[r.sequences@.len() - 1].seq@);
        }
        r
    }

    /// Differences the last level once more.
    pub fn step(&mut self)
        requires
            old(self).wf(),
            !old(self).complete,
            line_fits(old(self).base()),
        ensures
            final(self).wf(),
            final(self).base() == old(self).base(),
            final(self).sequences@.len() == old(self).sequences@.len() + 1,
            final(self).complete == is_zero_seq(
                level(old(self).base(), old(self).sequences@.len() as int),
            ),
    {
        let m = self.sequences.len();
        proof {
            assert(int_view(self.sequences@[m - 1].seq@) == level(self.base(), m - 1));
            // The last level was not all zero (or is the base itself), so it
            // is still within the base's length and may be differenced.
            if m >= 2 {
                assert(!is_zero_seq(level(self.base(), m - 1)));
                if m - 1 > self.base().len() {
                    lemma_level_len_past(self.base(), m - 1);
                    assert(level(self.base(), m - 1).len() == 0);
                    assert(false);
                }
            }
            lemma_level_fits(self.base(), m - 1);
            assert(seq_fits(spec_diff(level(self.base(), m - 1))));
        }
        let new_seq = self.sequences[m - 1].diff();
        let complete = new_seq.is_zero();
        self.sequences.push(new_seq);
        self.complete = complete;
        proof {
            assert(self.sequences@[0].seq@ == old(self).sequences@[0].seq@);
            assert forall|k: int| 0 <= k < self.sequences@.len() implies int_view(
                (#[trigger] self.sequences@[k]).seq@,
            ) == level(self.base(), k) by {
                if k < self.sequences@.len() - 1 {
                    assert(self.sequences@[k] == old(self).sequences@[k]);
                }
            }
            assert forall|j: int|
                1 <= j <= self.sequences@.len() - 2 implies !is_zero_seq(
                #[trigger] level(self.base(), j),
            ) by {
                if j <= old(self).sequences@.len() - 2 {
                } else {
                    assert(j == old(self).sequences@.len() - 1);
                }
            }
        }
    }

    /// The next value to the right of the base sequence.
    pub fn predict_right(&self) -> (r: i32)
        requires
            self.wf(),
            self.complete,
            self.base().len() >= 1,
            line_fits(self.base()),
        ensures
            r as int == pr_right(self.base()),
    {
        let m = self.sequences.len();
        let mut curr: i32 = 0;
        let mut t: usize = m - 1;
        proof {
            self.lemma_len_bound();
            lemma_pr_zero(int_view(self.sequences@[m - 1].seq@));
        }
        while t > 0
            invariant
                0 <= t <= m - 1,
                m == self.sequences@.len(),
                m <= self.base().len() + 1,
                self.wf(),
                line_fits(self.base()),
                curr as int == pr_right(level(self.base(), t as int)),
            decreases t,
        {
            proof {
                lemma_level_len(self.base(), t - 1);
                assert(self.sequences@.len() <= self.base().len() + 1);
                assert(level(self.base(), t - 1).len() == self.base().len() - (t - 1));
                assert(int_view(self.sequences@[t - 1].seq@) == level(self.base(), t - 1));
                lemma_level_fits(self.base(), t - 1);
            }
            let lastv = match self.sequences[t - 1].last() {
                Some(v) => v,
                None => {
                    proof {
                        assert(false);
                    }
                    0
                },
            };
            proof {
                assert(lastv as int == level(self.base(), t - 1).last());
                assert(pr_right(level(self.base(), t - 1)) == level(self.base(), t - 1).last()
                    + pr_right(spec_diff(level(self.base(), t - 1))));
                assert(fits_i32(pr_right(level(self.base(), t - 1))));
            }
            let wide: i64 = (lastv as i64) + (curr as i64);
            curr = wide as i32;
            t = t - 1;
        }
        curr
    }

    /// The next value to the left of the base sequence.
    pub fn predict_left(&self) -> (r: i32)
        requires
            self.wf(),
            self.complete,
            self.base().len() >= 1,
            line_fits(self.base()),
        ensures
            r as int == pr_left(self.base()),
    {
        let m = self.sequences.len();
        let mut curr: i32 = 0;
        let mut t: usize = m - 1;
        proof {
            self.lemma_len_bound();
            lemma_pr_zero(int_view(self.sequences@[m - 1].seq@));
        }
        while t > 0
            invariant
                0 <= t <= m - 1,
                m == self.sequences@.len(),
                m <= self.base().len() + 1,
                self.wf(),
                line_fits(self.base()),
                curr as int == pr_left(level(self.base(), t as int)),
            decreases t,
        {
            proof {
                lemma_level_len(self.base(), t - 1);
                assert(level(self.base(), t - 1).len() == self.base().len() - (t - 1));
                assert(int_view(self.sequences@[t - 1].seq@) == level(self.base(), t - 1));
                lemma_level_fits(self.base(), t - 1);
            }
            let firstv = self.sequences[t - 1].seq[0];
            proof {
                assert(firstv as int == level(self.base(), t - 1)[0]);
                assert(pr_left(level(self.base(), t - 1)) == level(self.base(), t - 1)[0]
                    - pr_left(spec_diff(level(self.base(), t - 1))));
                assert(fits_i32(pr_left(level(self.base(), t - 1))));
            }
            let wide: i64 = (firstv as i64) - (curr as i64);
            curr = wide as i32;
            t = t - 1;
        }
        curr
    }
}

/// Past the base's length every level is empty.
pub proof fn lemma_level_len_past(s: Seq<int>, k: int)
    requires
        k >= s.len(),
        k >= 0,
    ensures
        level(s, k).len() == 0,
    decreases k,
{
    if k > 0 {
        if k - 1 >= s.len() {
            lemma_level_len_past(s, k - 1);
        } else {
            lemma_level_len(s, k - 1);
        }
    }
}

/// Level `k` has the base's length less `k`, while any remain.
pub proof fn lemma_level_len(s: Seq<int>, k: int)
    requires
        0 <= k <= s.len(),
    ensures
        level(s, k).len() == s.len() - k,
    decreases k,
{
    if k > 0 {
        lemma_level_len(s, k - 1);
    }
}

/// Every fitting base keeps each level within bounds.
pub proof fn lemma_level_fits(s: Seq<int>, k: int)
    requires
        line_fits(s),
        0 <= k <= s.len(),
    ensures
        seq_fits(level(s, k)),
        seq_fits(spec_diff(level(s, k))),
        fits_i32(pr_right(level(s, k))),
        fits_i32(pr_left(level(s, k))),
{
    assert(seq_fits(level(s, k)));
    if k < s.len() {
        assert(level(s, k + 1) == spec_diff(level(s, k)));
        assert(seq_fits(level(s, k + 1)));
    } else {
        lemma_level_len(s, k);
        assert(spec_diff(level(s, k)).len() == 0);
        assert(seq_fits(spec_diff(level(s, k))));
    }
}

/// The answer: the sum over all lines of the extrapolated value.
pub open spec fn day_sum(ls: Seq<Seq<char>>, right: bool) -> int
    decreases ls.len(),
{
    if ls.len() == 0 {
        0
    } else {
        day_sum(ls.drop_last(), right) + line_value(ls.last(), right)
    }
}

pub open spec fn line_value(line: Seq<char>, right: bool) -> int {
    let vals = int_view(line_vals(line)->Some_0);
    if right {
        pr_right(vals)
    } else {
        pr_left(vals)
    }
}

/// Every line parses and fits, and every partial sum stays in the signed
/// domain with a non-negative final total.
pub open spec fn day_ok(ls: Seq<Seq<char>>) -> bool {
    &&& forall|i: int| 0 <= i < ls.len() ==> line_vals(#[trigger] ls[i]) is Some
    &&& forall|i: int|
        0 <= i < ls.len() ==> line_fits(int_view(line_vals(#[trigger] ls[i])->Some_0))
    &&& forall|i: int| 0 <= i < ls.len() ==> line_vals(#[trigger] ls[i])->Some_0.len() > 0
    &&& forall|k: int|
        0 <= k <= ls.len() ==> fits_i32(#[trigger] day_sum(ls.subrange(0, k), true)) && fits_i32(
            day_sum(ls.subrange(0, k), false),
        )
    &&& day_sum(ls, true) >= 0
    &&& day_sum(ls, false) >= 0
}

/// Extrapolates every line and sums the results.
pub fn solve(input: &str, right: bool) -> (r: u32)
    requires
        day_ok(spec_lines(input@)),
    ensures
        r as int == day_sum(spec_lines(input@), right),
{
    let cs = chars_of(input);
    let ls = lines_of(&cs);
    let ghost lv = crate::text::views(ls@);
    let n = ls.len();
    let mut sum: i32 = 0;
    let mut i: usize = 0;
    proof {
        assert(lv.subrange(0, 0) =~= Seq::<Seq<char>>::empty());
    }
    while i < n
        invariant
            0 <= i <= n,
            n == ls@.len(),
            n == lv.len(),
            lv == crate::text::views(ls@),
            day_ok(lv),
            sum as int == day_sum(lv.subrange(0, i as int), right),
        decreases n - i,
    {
        proof {
            assert(lv[i as int] == ls@[i as int]@);
        }
        let ns = match NumSeq::from_line(&ls[i]) {
            Some(ns) => ns,
            None => {
                proof {
                    assert(false);
                }
                return 0;
            },
        };
        let ghost base = int_view(ns.seq@);
        let mut history = History::new(ns);
        while !history.complete
            invariant
                history.wf(),
                history.base() == base,
                base.len() >= 1,
                line_fits(base),
            decreases base.len() + 2 - history.sequences@.len(),
        {
            proof {
                history.lemma_len_bound();
            }
            history.step();
        }
        let v = if right {
            history.predict_right()
        } else {
            history.predict_left()
        };
        proof {
            assert(v as int == line_value(lv[i as int], right));
            assert(lv.subrange(0, i + 1).drop_last() =~= lv.subrange(0, i as int));
            assert(lv.subrange(0, i + 1).last() == lv[i as int]);
            assert(fits_i32(day_sum(lv.subrange(0, i + 1), true)));
            assert(fits_i32(day_sum(lv.subrange(0, i as int), true)));
            assert(fits_i32(day_sum(lv.subrange(0, i + 1), false)));
            assert(fits_i32(day_sum(lv.subrange(0, i as int), false)));
        }
        let wide: i64 = (sum as i64) + (v as i64);
        sum = wide as i32;
        i = i + 1;
    }
    proof {
        assert(lv.subrange(0, n as int) =~= lv);
        assert(day_sum(lv, right) >= 0);
    }
    sum as u32
}

/// The sum of every line's next value on the right.
pub fn part_one(input: &str) -> (r: u32)
    requires
        day_ok(spec_lines(input@)),
    ensures
        r as int == day_sum(spec_lines(input@), true),
{
    solve(input, true)
}

/// The sum of every line's previous value on the left.
pub fn part_two(input: &str) -> (r: u32)
    requires
        day_ok(spec_lines(input@)),
    ensures
        r as int == day_sum(spec_lines(input@), false),
{
    solve(input, false)
}

} // verus!
