//! Translation rules and tables: one pipeline stage maps a value covered by
//! one of its rules by that rule's constant offset, and every other value to
//! itself.

use vstd::prelude::*;
use vstd::seq_lib::*;
use vstd::multiset::Multiset;
use crate::interval::{Interval, range_vals, lemma_range_vals_split, lemma_range_vals_shift};

verus! {

/// One translation entry: `[src_start, src_start + length)` maps to
/// `[dest_start, dest_start + length)` via a constant offset.
#[derive(Clone, Copy, PartialEq, Eq, Structural, Debug)]
pub struct RangeRule {
    pub dest_start: u64,
    pub src_start: u64,
    pub length: u64,
}

impl RangeRule {
    /// Well-formed: non-degenerate, and both half-open ends fit in the domain.
    pub open spec fn wf(self) -> bool {
        &&& self.length > 0
        &&& self.src_start + self.length <= u64::MAX
        &&& self.dest_start + self.length <= u64::MAX
    }

    pub open spec fn src_end(self) -> int {
        self.src_start + self.length
    }

    /// `src_start <= v < src_start + length`.
    pub open spec fn covers(self, v: int) -> bool {
        self.src_start <= v < self.src_end()
    }

    /// The destination of a covered value.
    pub open spec fn shift(self, v: int) -> int {
        v - self.src_start + self.dest_start
    }

    pub fn new(dest_start: u64, src_start: u64, length: u64) -> (r: RangeRule)
        ensures
            r == (RangeRule { dest_start, src_start, length }),
    {
        RangeRule { dest_start, src_start, length }
    }

    /// True iff this rule covers `v`.
    pub fn covers_value(&self, v: u64) -> (r: bool)
        ensures
            r == self.covers(v as int),
    {
        v >= self.src_start && v - self.src_start < self.length
    }

    /// The destination of a covered value.
    pub fn translate(&self, v: u64) -> (r: u64)
        requires
            self.wf(),
            self.covers(v as int),
        ensures
            r == self.shift(v as int),
    {
        self.dest_start + (v - self.src_start)
    }

    /// The sub-interval of `iv` that lies within this rule's source range,
    /// or `None` when they are disjoint.
    pub fn overlap(&self, iv: &Interval) -> (r: Option<Interval>)
        requires
            self.wf(),
            iv.wf(),
        ensures
            match r {
                Some(o) => {
                    &&& o.wf()
                    &&& !o.is_empty()
                    &&& iv.start <= o.start
                    &&& o.end <= iv.end
                    &&& self.src_start <= o.start
                    &&& o.end <= self.src_end()
                    &&& forall|v: int| o.contains(v) <==> iv.contains(v) && self.covers(v)
                },
                None => forall|v: int| !(iv.contains(v) && self.covers(v)),
            },
    {
        let src_end = self.src_start + self.length;
        let lo = if iv.start >= self.src_start {
            iv.start
        } else {
            self.src_start
        };
        let hi = if iv.end <= src_end {
            iv.end
        } else {
            src_end
        };
        if lo < hi {
            Some(Interval { start: lo, end: hi })
        } else {
            None
        }
    }
}

/// The values of a sequence of intervals, concatenated in order.
pub open spec fn flat_vals(ivs: Seq<Interval>) -> Seq<int> {
    ivs.map_values(|iv: Interval| iv.vals()).flatten()
}

pub proof fn lemma_flat_vals_empty()
    ensures
        flat_vals(Seq::<Interval>::empty()) == Seq::<int>::empty(),
{
    assert(Seq::<Interval>::empty().map_values(|iv: Interval| iv.vals()) =~= Seq::<
        Seq<int>,
    >::empty());
}

/// The multiset of the empty value sequence is the empty multiset.
pub proof fn lemma_to_ms_empty()
    ensures
        Seq::<int>::empty().to_multiset() == Multiset::<int>::empty(),
{
    broadcast use vstd::seq_lib::group_to_multiset_ensures;
    broadcast use vstd::multiset::group_multiset_axioms;

    assert(Seq::<int>::empty().to_multiset() =~= Multiset::<int>::empty());
}

pub proof fn lemma_flat_vals_push(s: Seq<Interval>, iv: Interval)
    ensures
        flat_vals(s.push(iv)) == flat_vals(s) + iv.vals(),
{
    let f = |x: Interval| x.vals();
    assert(s.push(iv).map_values(f) =~= s.map_values(f).push(iv.vals()));
    Seq::lemma_flatten_push(s.map_values(f), iv.vals());
    assert(flat_vals(s.push(iv)) =~= flat_vals(s) + iv.vals());
}

pub proof fn lemma_flat_vals_add(a: Seq<Interval>, b: Seq<Interval>)
    ensures
        flat_vals(a + b) == flat_vals(a) + flat_vals(b),
{
    let f = |x: Interval| x.vals();
    assert((a + b).map_values(f) =~= a.map_values(f) + b.map_values(f));
    lemma_flatten_concat(a.map_values(f), b.map_values(f));
    assert(flat_vals(a + b) =~= flat_vals(a) + flat_vals(b));
}

/// Members in ascending order, pairwise disjoint.
pub open spec fn pieces_ordered(s: Seq<Interval>) -> bool {
    forall|p: int, q: int|
        0 <= p < q < s.len() ==> (#[trigger] s[p]).end <= (#[trigger] s[q]).start
}

/// Some of the first `j` members strictly surrounds `v`.
pub open spec fn pierced(s: Seq<Interval>, j: int, v: int) -> bool {
    exists|p: int| 0 <= p < j && (#[trigger] s[p]).start < v && v < s[p].end
}

pub proof fn lemma_pierced_mono(s: Seq<Interval>, j: int, v: int)
    requires
        pierced(s, j, v),
    ensures
        pierced(s, j + 1, v),
{
    let p = choose|p: int| 0 <= p < j && (#[trigger] s[p]).start < v && v < s[p].end;
    assert(0 <= p < j + 1 && s[p].start < v && v < s[p].end);
}

/// A value of the flattened sequence lies in some member interval.
pub proof fn lemma_flat_contains(ivs: Seq<Interval>, v: int)
    requires
        flat_vals(ivs).contains(v),
    ensures
        exists|i: int| 0 <= i < ivs.len() && (#[trigger] ivs[i]).contains(v),
    decreases ivs.len(),
{
    if ivs.len() == 0 {
        lemma_flat_vals_empty();
        assert(false);
    } else {
        let prefix = ivs.drop_last();
        let last = ivs.last();
        assert(ivs =~= prefix.push(last));
        lemma_flat_vals_push(prefix, last);
        if flat_vals(prefix).contains(v) {
            lemma_flat_contains(prefix, v);
            let i = choose|i: int| 0 <= i < prefix.len() && (#[trigger] prefix[i]).contains(v);
            assert(ivs[i].contains(v));
        } else {
            let full = flat_vals(prefix) + last.vals();
            let idx = choose|idx: int| 0 <= idx < full.len() && full[idx] == v;
            assert(idx >= flat_vals(prefix).len()) by {
                if idx < flat_vals(prefix).len() {
                    assert(flat_vals(prefix)[idx] == v);
                }
            }
            assert(last.vals()[idx - flat_vals(prefix).len()] == v);
            assert(last.contains(v));
            assert(ivs[ivs.len() - 1].contains(v));
        }
    }
}

/// A value of a member interval appears in the flattened sequence.
pub proof fn lemma_flat_contains_member(ivs: Seq<Interval>, i: int, v: int)
    requires
        0 <= i < ivs.len(),
        ivs[i].contains(v),
    ensures
        flat_vals(ivs).contains(v),
    decreases ivs.len(),
{
    let prefix = ivs.drop_last();
    let last = ivs.last();
    assert(ivs =~= prefix.push(last));
    lemma_flat_vals_push(prefix, last);
    if i < ivs.len() - 1 {
        lemma_flat_contains_member(prefix, i, v);
        let idx = choose|idx: int|
            0 <= idx < flat_vals(prefix).len() && flat_vals(prefix)[idx] == v;
        assert(flat_vals(ivs)[idx] == v);
    } else {
        let off = v - last.start;
        assert(last.vals()[off] == v);
        assert(flat_vals(ivs)[flat_vals(prefix).len() + off] == v);
    }
}

/// One pipeline stage: an ordered collection of translation rules. A value
/// covered by some rule is translated by the first such rule in table order;
/// any other value maps to itself.
pub struct RangeTable {
    pub rules: Vec<RangeRule>,
}

/// First-match-wins lookup of `v` in an ordered rule sequence.
pub open spec fn lookup_in(rules: Seq<RangeRule>, v: int) -> int
    decreases rules.len(),
{
    if rules.len() == 0 {
        v
    } else if rules[0].covers(v) {
        rules[0].shift(v)
    } else {
        lookup_in(rules.drop_first(), v)
    }
}

/// A value covered by no rule maps to itself.
pub proof fn lemma_lookup_uncovered(rules: Seq<RangeRule>, v: int)
    requires
        forall|j: int| 0 <= j < rules.len() ==> !(#[trigger] rules[j]).covers(v),
    ensures
        lookup_in(rules, v) == v,
    decreases rules.len(),
{
    if rules.len() > 0 {
        assert(forall|j: int|
            0 <= j < rules.drop_first().len() ==> rules.drop_first()[j] == rules[j + 1]);
        lemma_lookup_uncovered(rules.drop_first(), v);
    }
}

/// Lookup ignores a prefix of rules none of which covers `v`.
pub proof fn lemma_lookup_skip(rules: Seq<RangeRule>, k: int, v: int)
    requires
        0 <= k <= rules.len(),
        forall|j: int| 0 <= j < k ==> !(#[trigger] rules[j]).covers(v),
    ensures
        lookup_in(rules, v) == lookup_in(rules.skip(k), v),
    decreases k,
{
    if k == 0 {
        assert(rules.skip(0) =~= rules);
    } else {
        assert(!rules[0].covers(v));
        assert(rules.drop_first() =~= rules.skip(1));
        assert(forall|j: int| 0 <= j < k - 1 ==> rules.skip(1)[j] == rules[j + 1]);
        lemma_lookup_skip(rules.skip(1), k - 1, v);
        assert(rules.skip(1).skip(k - 1) =~= rules.skip(k));
    }
}

/// When the first `k` rules miss `v` and rule `k` covers it, lookup
/// translates by rule `k`.
pub proof fn lemma_lookup_first_cover(rules: Seq<RangeRule>, k: int, v: int)
    requires
        0 <= k < rules.len(),
        forall|j: int| 0 <= j < k ==> !(#[trigger] rules[j]).covers(v),
        rules[k].covers(v),
    ensures
        lookup_in(rules, v) == rules[k].shift(v),
{
    lemma_lookup_skip(rules, k, v);
    assert(rules.skip(k)[0] == rules[k]);
}

impl RangeTable {
    /// Well-formed: every rule is well-formed.
    pub open spec fn wf(self) -> bool {
        forall|i: int| 0 <= i < self.rules@.len() ==> (#[trigger] self.rules@[i]).wf()
    }

    /// Where `v` goes through this stage.
    pub open spec fn lookup(self, v: int) -> int {
        lookup_in(self.rules@, v)
    }

    /// The image of a sequence of values under this stage's lookup.
    pub open spec fn img_of(self, s: Seq<int>) -> Seq<int> {
        s.map_values(|v: int| self.lookup(v))
    }

    pub fn new(rules: Vec<RangeRule>) -> (r: RangeTable)
        ensures
            r.rules@ == rules@,
    {
        RangeTable { rules }
    }

    /// Single-value lookup: the destination of `v` under the first rule that
    /// covers it, or `v` itself when none does.
    pub fn lookup_value(&self, v: u64) -> (r: u64)
        requires
            self.wf(),
        ensures
            r == self.lookup(v as int),
    {
        let n = self.rules.len();
        let mut i: usize = 0;
        while i < n
            invariant
                0 <= i <= n,
                n == self.rules@.len(),
                self.wf(),
                forall|j: int| 0 <= j < i ==> !(#[trigger] self.rules@[j]).covers(v as int),
            decreases n - i,
        {
            let rule = self.rules[i];
            if rule.covers_value(v) {
                proof {
                    lemma_lookup_first_cover(self.rules@, i as int, v as int);
                }
                return rule.translate(v);
            }
            i = i + 1;
        }
        proof {
            lemma_lookup_uncovered(self.rules@, v as int);
        }
        v
    }

    /// Maps one interval through the table, splitting it at rule boundaries:
    /// covered sub-ranges are translated by their rule's offset, and any
    /// leftover sub-range passes through unchanged.
    ///
    /// Partition property: the emitted intervals, mapped back through their
    /// respective offsets (or identity), exactly tile the input — stated here
    /// value-wise: the multiset of emitted values equals the multiset image
    /// of the input's values under `lookup`, so every input value is carried
    /// to exactly one output value, with no gaps and no overlaps.
    ///
    /// A table with zero rules maps every interval to itself unchanged
    /// (and an empty interval to no output at all).
    pub fn map_interval(&self, input: Interval) -> (out: Vec<Interval>)
        requires
            self.wf(),
            input.wf(),
        ensures
            forall|k: int| 0 <= k < out@.len() ==> (#[trigger] out@[k]).wf() && !out@[k].is_empty(),
            flat_vals(out@).to_multiset() == self.img_of(input.vals()).to_multiset(),
            out@.len() <= 1 + 2 * self.rules@.len(),
            self.rules@.len() == 0 ==> out@ == if input.is_empty() {
                Seq::<Interval>::empty()
            } else {
                seq![input]
            },
    {
        broadcast use vstd::multiset::group_multiset_axioms;
        broadcast use vstd::seq_lib::group_to_multiset_ensures;

        let mut output: Vec<Interval> = Vec::new();
        let mut rem: Vec<Interval> = Vec::new();
        if input.start < input.end {
            rem.push(input);
        }
        proof {
            lemma_flat_vals_empty();
            if input.start < input.end {
                lemma_flat_vals_push(Seq::<Interval>::empty(), input);
                assert(flat_vals(rem@) =~= input.vals());
            } else {
                assert(flat_vals(rem@) =~= input.vals());
            }
            lemma_to_ms_empty();
            assert(flat_vals(output@) =~= Seq::<int>::empty());
            assert(flat_vals(output@).to_multiset().add(
                self.img_of(flat_vals(rem@)).to_multiset(),
            ) =~= self.img_of(input.vals()).to_multiset());
        }
        let n = self.rules.len();
        let mut k: usize = 0;
        while k < n
            invariant
                0 <= k <= n,
                n == self.rules@.len(),
                self.wf(),
                input.wf(),
                forall|i: int|
                    0 <= i < rem@.len() ==> (#[trigger] rem@[i]).wf() && !rem@[i].is_empty(),
                forall|i: int|
                    0 <= i < output@.len() ==> (#[trigger] output@[i]).wf()
                        && !output@[i].is_empty(),
                forall|i: int, j: int, v: int|
                    #![trigger rem@[i].contains(v), self.rules@[j].covers(v)]
                    0 <= i < rem@.len() && 0 <= j < k && rem@[i].contains(v) ==> !self.rules@[j].covers(v),
                flat_vals(output@).to_multiset().add(
                    self.img_of(flat_vals(rem@)).to_multiset(),
                ) == self.img_of(input.vals()).to_multiset(),
                pieces_ordered(rem@),
                output@.len() + rem@.len() <= 1 + 2 * k,
                n == 0 ==> output@ == Seq::<Interval>::empty() && rem@ == (if input.is_empty() {
                    Seq::<Interval>::empty()
                } else {
                    seq![input]
                }),
            decreases n - k,
        {
            let rule = self.rules[k];
            let mut next_rem: Vec<Interval> = Vec::new();
            let m = rem.len();
            let ghost out0 = output@.len() as int;
            let mut j: usize = 0;
            proof {
                lemma_flat_vals_empty();
                lemma_to_ms_empty();
                assert(rem@.subrange(0, m as int) =~= rem@);
                assert(flat_vals(next_rem@) =~= Seq::<int>::empty());
                assert(self.img_of(flat_vals(next_rem@)) =~= Seq::<int>::empty());
                assert(flat_vals(output@).to_multiset().add(
                    self.img_of(flat_vals(next_rem@)).to_multiset(),
                ).add(
                    self.img_of(flat_vals(rem@.subrange(0, m as int))).to_multiset(),
                ) =~= flat_vals(output@).to_multiset().add(
                    self.img_of(flat_vals(rem@)).to_multiset(),
                ));
            }
            while j < m
                invariant
                    0 <= j <= m,
                    m == rem@.len(),
                    0 <= k < n,
                    n == self.rules@.len(),
                    self.wf(),
                    input.wf(),
                    rule == self.rules@[k as int],
                    rule.wf(),
                    forall|i: int|
                        0 <= i < rem@.len() ==> (#[trigger] rem@[i]).wf() && !rem@[i].is_empty(),
                    forall|i: int|
                        0 <= i < next_rem@.len() ==> (#[trigger] next_rem@[i]).wf()
                            && !next_rem@[i].is_empty(),
                    forall|i: int|
                        0 <= i < output@.len() ==> (#[trigger] output@[i]).wf()
                            && !output@[i].is_empty(),
                    forall|i: int, j2: int, v: int|
                        #![trigger rem@[i].contains(v), self.rules@[j2].covers(v)]
                        0 <= i < rem@.len() && 0 <= j2 < k && rem@[i].contains(v)
                            ==> !self.rules@[j2].covers(v),
                    forall|i: int, j2: int, v: int|
                        #![trigger next_rem@[i].contains(v), self.rules@[j2].covers(v)]
                        0 <= i < next_rem@.len() && 0 <= j2 < k + 1 && next_rem@[i].contains(v)
                            ==> !self.rules@[j2].covers(v),
                    flat_vals(output@).to_multiset().add(
                        self.img_of(flat_vals(next_rem@)).to_multiset(),
                    ).add(
                        self.img_of(flat_vals(rem@.subrange(j as int, m as int))).to_multiset(),
                    ) == self.img_of(input.vals()).to_multiset(),
                    pieces_ordered(rem@),
                    pieces_ordered(next_rem@),
                    forall|z: int, q: int|
                        0 <= z < next_rem@.len() && j <= q < m ==> (#[trigger] next_rem@[z]).end
                            <= (#[trigger] rem@[q]).start,
                    out0 + m <= 1 + 2 * k,
                    output@.len() + next_rem@.len() <= out0 + j + (if pierced(
                        rem@,
                        j as int,
                        rule.src_start as int,
                    ) {
                        1int
                    } else {
                        0int
                    }) + (if pierced(rem@, j as int, rule.src_end()) {
                        1int
                    } else {
                        0int
                    }),
                decreases m - j,
            {
                let piece = rem[j];
                let ghost rest = rem@.subrange(j as int + 1, m as int);
                proof {
                    assert(rem@.subrange(j as int, m as int) =~= seq![piece] + rest);
                    lemma_flat_vals_add(seq![piece], rest);
                    lemma_flat_vals_push(Seq::<Interval>::empty(), piece);
                    lemma_flat_vals_empty();
                    assert(flat_vals(seq![piece]) =~= piece.vals());
                    assert(self.img_of(piece.vals() + flat_vals(rest)) =~= self.img_of(
                        piece.vals(),
                    ) + self.img_of(flat_vals(rest)));
                    lemma_multiset_commutative(
                        self.img_of(piece.vals()),
                        self.img_of(flat_vals(rest)),
                    );
                }
                match rule.overlap(&piece) {
                    Some(ov) => {
                        let t_start = rule.translate(ov.start);
                        let t_end = rule.dest_start + (ov.end - rule.src_start);
                        let tov = Interval { start: t_start, end: t_end };
                        let ghost left = Interval { start: piece.start, end: ov.start };
                        let ghost right = Interval { start: ov.end, end: piece.end };
                        let ghost old_out = output@;
                        let ghost old_next = next_rem@;
                        proof {
                            lemma_range_vals_split(
                                piece.start as int,
                                ov.start as int,
                                piece.end as int,
                            );
                            lemma_range_vals_split(ov.start as int, ov.end as int, piece.end as int);
                            assert(piece.vals() == left.vals() + (ov.vals() + right.vals()));
                            assert(self.img_of(left.vals() + (ov.vals() + right.vals())) =~= self
                                .img_of(left.vals()) + (self.img_of(ov.vals()) + self.img_of(
                                right.vals(),
                            )));
                            // Covered values are translated by this rule.
                            assert forall|v: int| ov.contains(v) implies #[trigger] self.lookup(v)
                                == rule.shift(v) by {
                                lemma_lookup_first_cover(self.rules@, k as int, v);
                            }
                            let off = rule.dest_start - rule.src_start;
                            assert(self.img_of(ov.vals()) =~= ov.vals().map_values(
                                |v: int| v + off,
                            ));
                            lemma_range_vals_shift(ov.start as int, ov.end as int, off);
                            assert(self.img_of(ov.vals()) == tov.vals());
                            // Multiset bookkeeping for the three parts.
                            lemma_multiset_commutative(
                                self.img_of(left.vals()),
                                self.img_of(ov.vals()) + self.img_of(right.vals()),
                            );
                            lemma_multiset_commutative(
                                self.img_of(ov.vals()),
                                self.img_of(right.vals()),
                            );
                        }
                        proof {
                            assert(piece == rem@[j as int]);
                            assert forall|j2: int, v: int|
                                #![trigger self.rules@[j2].covers(v)]
                                0 <= j2 < k + 1 && (left.contains(v) || right.contains(
                                    v,
                                )) implies !self.rules@[j2].covers(v) by {
                                assert(piece.contains(v));
                                if j2 == k {
                                    assert(!ov.contains(v));
                                }
                            }
                            // Each rule boundary lies strictly inside at most
                            // one of the ordered pieces, so at most two
                            // remainders arise over the whole pass.
                            let s = rule.src_start as int;
                            let e = rule.src_end();
                            if piece.start < ov.start {
                                assert(ov.start == rule.src_start) by {
                                    let w = if piece.start as int >= s {
                                        piece.start as int
                                    } else {
                                        s
                                    };
                                    if w < ov.start {
                                        assert(piece.contains(w) && rule.covers(w));
                                        assert(ov.contains(w));
                                    }
                                }
                                assert(piece.start < s < piece.end);
                                assert(!pierced(rem@, j as int, s)) by {
                                    if pierced(rem@, j as int, s) {
                                        let p = choose|p: int|
                                            0 <= p < j && (#[trigger] rem@[p]).start < s && s
                                                < rem@[p].end;
                                        assert(rem@[p].end <= rem@[j as int].start);
                                    }
                                }
                                assert(pierced(rem@, j + 1, s)) by {
                                    assert((#[trigger] rem@[j as int]).start < s && s
                                        < rem@[j as int].end);
                                }
                            } else {
                                if pierced(rem@, j as int, s) {
                                    lemma_pierced_mono(rem@, j as int, s);
                                }
                            }
                            if ov.end < piece.end {
                                assert(ov.end == rule.src_end()) by {
                                    let w = (if piece.end as int <= e {
                                        piece.end as int
                                    } else {
                                        e
                                    }) - 1;
                                    if w >= ov.end {
                                        assert(piece.contains(w) && rule.covers(w));
                                        assert(ov.contains(w));
                                    }
                                }
                                assert(piece.start < e < piece.end);
                                assert(!pierced(rem@, j as int, e)) by {
                                    if pierced(rem@, j as int, e) {
                                        let p = choose|p: int|
                                            0 <= p < j && (#[trigger] rem@[p]).start < e && e
                                                < rem@[p].end;
                                        assert(rem@[p].end <= rem@[j as int].start);
                                    }
                                }
                                assert(pierced(rem@, j + 1, e)) by {
                                    assert((#[trigger] rem@[j as int]).start < e && e
                                        < rem@[j as int].end);
                                }
                            } else {
                                if pierced(rem@, j as int, e) {
                                    lemma_pierced_mono(rem@, j as int, e);
                                }
                            }
                        }
                        if piece.start < ov.start {
                            next_rem.push(Interval { start: piece.start, end: ov.start });
                        }
                        output.push(tov);
                        if ov.end < piece.end {
                            next_rem.push(Interval { start: ov.end, end: piece.end });
                        }
                        proof {
                            lemma_flat_vals_push(old_out, tov);
                            lemma_multiset_commutative(flat_vals(old_out), tov.vals());
                            if piece.start < ov.start {
                                lemma_flat_vals_push(old_next, left);
                                if ov.end < piece.end {
                                    lemma_flat_vals_push(old_next.push(left), right);
                                    assert(flat_vals(next_rem@) == flat_vals(old_next)
                                        + left.vals() + right.vals());
                                } else {
                                    assert(right.vals() =~= Seq::<int>::empty());
                                    assert(flat_vals(next_rem@) =~= flat_vals(old_next)
                                        + left.vals() + right.vals());
                                }
                            } else {
                                assert(left.vals() =~= Seq::<int>::empty());
                                if ov.end < piece.end {
                                    lemma_flat_vals_push(old_next, right);
                                    assert(flat_vals(next_rem@) =~= flat_vals(old_next)
                                        + left.vals() + right.vals());
                                } else {
                                    assert(right.vals() =~= Seq::<int>::empty());
                                    assert(flat_vals(next_rem@) =~= flat_vals(old_next)
                                        + left.vals() + right.vals());
                                }
                            }
                            assert(self.img_of(flat_vals(old_next) + left.vals() + right.vals())
                                =~= self.img_of(flat_vals(old_next)) + self.img_of(left.vals())
                                + self.img_of(right.vals()));
                            lemma_multiset_commutative(
                                self.img_of(flat_vals(old_next)) + self.img_of(left.vals()),
                                self.img_of(right.vals()),
                            );
                            lemma_multiset_commutative(
                                self.img_of(flat_vals(old_next)),
                                self.img_of(left.vals()),
                            );
                            assert(flat_vals(output@).to_multiset().add(
                                self.img_of(flat_vals(next_rem@)).to_multiset(),
                            ).add(
                                self.img_of(
                                    flat_vals(rem@.subrange(j as int + 1, m as int)),
                                ).to_multiset(),
                            ) =~= self.img_of(input.vals()).to_multiset());
                        }
                    },
                    None => {
                        let ghost old_next = next_rem@;
                        proof {
                            assert(piece == rem@[j as int]);
                            assert forall|j2: int, v: int|
                                #![trigger self.rules@[j2].covers(v)]
                                0 <= j2 < k + 1 && piece.contains(v) implies !self.rules@[j2].covers(
                                v,
                            ) by {}
                            if pierced(rem@, j as int, rule.src_start as int) {
                                lemma_pierced_mono(rem@, j as int, rule.src_start as int);
                            }
                            if pierced(rem@, j as int, rule.src_end()) {
                                lemma_pierced_mono(rem@, j as int, rule.src_end());
                            }
                        }
                        next_rem.push(piece);
                        proof {
                            lemma_flat_vals_push(old_next, piece);
                            assert(self.img_of(flat_vals(old_next) + piece.vals()) =~= self.img_of(
                                flat_vals(old_next),
                            ) + self.img_of(piece.vals()));
                            lemma_multiset_commutative(
                                self.img_of(flat_vals(old_next)),
                                self.img_of(piece.vals()),
                            );
                            assert(flat_vals(output@).to_multiset().add(
                                self.img_of(flat_vals(next_rem@)).to_multiset(),
                            ).add(
                                self.img_of(
                                    flat_vals(rem@.subrange(j as int + 1, m as int)),
                                ).to_multiset(),
                            ) =~= self.img_of(input.vals()).to_multiset());
                        }
                    },
                }
                j = j + 1;
            }
            proof {
                assert(rem@.subrange(m as int, m as int) =~= Seq::<Interval>::empty());
                lemma_flat_vals_empty();
                lemma_to_ms_empty();
                assert(self.img_of(flat_vals(rem@.subrange(m as int, m as int))) =~= Seq::<
                    int,
                >::empty());
                assert(flat_vals(output@).to_multiset().add(
                    self.img_of(flat_vals(next_rem@)).to_multiset(),
                ) =~= flat_vals(output@).to_multiset().add(
                    self.img_of(flat_vals(next_rem@)).to_multiset(),
                ).add(
                    self.img_of(flat_vals(rem@.subrange(m as int, m as int))).to_multiset(),
                ));
            }
            proof {
                assert(output@.len() + next_rem@.len() <= out0 + m + 2);
            }
            rem = next_rem;
            k = k + 1;
        }
        // Whatever no rule covered passes through unchanged.
        proof {
            assert forall|v: int| flat_vals(rem@).contains(v) implies #[trigger] self.lookup(v)
                == v by {
                lemma_flat_contains(rem@, v);
                lemma_lookup_uncovered(self.rules@, v);
            }
            assert(self.img_of(flat_vals(rem@)) =~= flat_vals(rem@));
        }
        let ghost final_out = output@;
        let ghost final_rem = rem@;
        let mut rem2 = rem;
        output.append(&mut rem2);
        proof {
            assert(output@ == final_out + final_rem);
            lemma_flat_vals_add(final_out, final_rem);
            lemma_multiset_commutative(flat_vals(final_out), flat_vals(final_rem));
            assert(flat_vals(output@).to_multiset() =~= self.img_of(input.vals()).to_multiset());
            assert(output@.len() <= 1 + 2 * self.rules@.len());
            if self.rules@.len() == 0 {
                assert(output@ =~= final_rem);
            }
        }
        output
    }
}

} // verus!
