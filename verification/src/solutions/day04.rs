//! Scratchcards: each card's winning numbers are matched against the held
//! numbers; points double per extra match, and each card's matches award
//! copies of the cards with the next numbers.

use vstd::prelude::*;
use crate::text::{
    chars_of,
    lines_of,
    runs_of,
    slice_chars,
    parse_u64,
    prefix_matches,
    spec_lines,
    spec_runs,
    digits_val,
    lemma_runs_all_digits,
};
use crate::solutions::day05::is_space;

verus! {

/// One scratchcard: its number, how many of its numbers match, and how many
/// copies of it are held.
#[derive(Clone, Copy, Debug)]
pub struct Card {
    pub id: u32,
    pub intersection_size: u32,
    pub frequency: u32,
}

/// Two to the `k`-th power.
pub open spec fn pow2(k: int) -> int
    decreases k,
{
    if k <= 0 {
        1
    } else {
        2 * pow2(k - 1)
    }
}

pub proof fn lemma_pow2_pos(k: int)
    ensures
        pow2(k) >= 1,
    decreases k,
{
    if k > 0 {
        lemma_pow2_pos(k - 1);
    }
}

pub proof fn lemma_pow2_mono(a: int, b: int)
    requires
        a <= b,
    ensures
        pow2(a) <= pow2(b),
    decreases b - a,
{
    if a < b {
        lemma_pow2_mono(a, b - 1);
        lemma_pow2_pos(b - 1);
    }
}

pub proof fn lemma_pow2_values()
    ensures
        pow2(30) == 0x4000_0000,
        pow2(31) == 0x8000_0000,
{
    assert(pow2(30) == 0x4000_0000 && pow2(31) == 0x8000_0000) by {
        reveal_with_fuel(pow2, 33);
    }
}

impl Card {
    /// A card with matches scores one point, doubled per further match.
    pub fn get_points(card: Card) -> (r: u32)
        requires
            card.intersection_size <= 32,
        ensures
            r as int == spec_points(card.intersection_size as int),
    {
        if card.intersection_size == 0 {
            return 0;
        }
        let mut r: u32 = 1;
        let mut k: u32 = 0;
        while k < card.intersection_size - 1
            invariant
                0 <= k <= card.intersection_size - 1,
                card.intersection_size <= 32,
                r as int == pow2(k as int),
            decreases card.intersection_size - k,
        {
            proof {
                lemma_pow2_values();
                lemma_pow2_mono(k as int, 30);
                lemma_pow2_pos(k as int);
            }
            r = r * 2;
            k = k + 1;
        }
        r
    }

    /// Awards `num` further copies of this card.
    pub fn increase_frequency(&mut self, num: u32)
        requires
            old(self).frequency + num <= u32::MAX,
        ensures
            final(self).frequency == old(self).frequency + num,
            final(self).id == old(self).id,
            final(self).intersection_size == old(self).intersection_size,
    {
        self.frequency = self.frequency + num;
    }
}

/// The points a match count scores.
pub open spec fn spec_points(m: int) -> int {
    if m == 0 {
        0
    } else {
        pow2(m - 1)
    }
}

/// The card-number run: a digit run ending in `:` and preceded, past any
/// spaces, by the word `Card`.
pub open spec fn card_run_at(line: Seq<char>, r: (int, int)) -> bool {
    &&& r.1 < line.len()
    &&& line[r.1] == ':'
    &&& exists|p: int|
        #![trigger line.subrange(p, p + 4)]
        0 <= p && p + 4 <= r.0 && line.subrange(p, p + 4) == seq!['C', 'a', 'r', 'd'] && (
        forall|q: int| p + 4 <= q < r.0 ==> is_space(#[trigger] line[q]))
}

pub open spec fn first_card_run(line: Seq<char>, runs: Seq<(int, int)>) -> Option<(int, int)>
    decreases runs.len(),
{
    if runs.len() == 0 {
        None
    } else if card_run_at(line, runs.first()) {
        Some(runs.first())
    } else {
        first_card_run(line, runs.drop_first())
    }
}

/// The position of the last `|` of the line, or the length when none occurs.
pub open spec fn last_bar(line: Seq<char>) -> int
    decreases line.len(),
{
    if line.len() == 0 {
        0
    } else if line.last() == '|' {
        line.len() - 1
    } else if last_bar(line.drop_last()) == line.len() - 1 {
        line.len() as int
    } else {
        last_bar(line.drop_last())
    }
}

pub proof fn lemma_last_bar(line: Seq<char>)
    ensures
        0 <= last_bar(line) <= line.len(),
        last_bar(line) < line.len() ==> line[last_bar(line)] == '|',
        forall|q: int| last_bar(line) < q < line.len() ==> line[q] != '|',
        last_bar(line) == line.len() ==> forall|q: int|
            0 <= q < line.len() ==> line[q] != '|',
    decreases line.len(),
{
    if line.len() > 0 {
        lemma_last_bar(line.drop_last());
        assert(forall|q: int|
            0 <= q < line.drop_last().len() ==> line.drop_last()[q] == line[q]);
    }
}

/// The values of the digit runs lying strictly between `lo` and up to `hi`.
pub open spec fn region_vals(line: Seq<char>, runs: Seq<(int, int)>, lo: int, hi: int) -> Seq<
    int,
>
    decreases runs.len(),
{
    if runs.len() == 0 {
        Seq::empty()
    } else {
        let rest = region_vals(line, runs.drop_last(), lo, hi);
        let r = runs.last();
        if lo < r.0 && r.1 <= hi {
            rest.push(digits_val(line.subrange(r.0, r.1)))
        } else {
            rest
        }
    }
}

/// The number of distinct values of `win` that occur in `have`.
pub open spec fn inter_count(win: Seq<int>, have: Seq<int>) -> int
    decreases win.len(),
{
    if win.len() == 0 {
        0
    } else {
        inter_count(win.drop_last(), have) + (if have.contains(win.last())
            && !win.drop_last().contains(win.last()) {
            1int
        } else {
            0int
        })
    }
}

/// One line's card: its number and its match count. `None` when the line
/// has no card number, no bar, or a number outside the signed 32-bit
/// domain the values are read in.
pub open spec fn line_card(line: Seq<char>) -> Option<(int, int)> {
    match first_card_run(line, spec_runs(line)) {
        None => None,
        Some(r) => {
            let bar = last_bar(line);
            let win = region_vals(line, spec_runs(line), r.1, bar);
            let have = region_vals(line, spec_runs(line), bar, line.len() as int);
            if digits_val(line.subrange(r.0, r.1)) <= u32::MAX && bar < line.len() && vals_small(
                win,
            ) && vals_small(have) && inter_count(win, have) <= u32::MAX {
                Some((digits_val(line.subrange(r.0, r.1)), inter_count(win, have)))
            } else {
                None
            }
        },
    }
}

/// All values fit the signed 32-bit domain they are read in.
pub open spec fn vals_small(vals: Seq<int>) -> bool {
    forall|k: int| 0 <= k < vals.len() ==> 0 <= #[trigger] vals[k] <= i32::MAX
}

/// The cards of every line, in order; `None` when a line has none.
pub open spec fn cards_of(ls: Seq<Seq<char>>) -> Option<Seq<(int, int)>>
    decreases ls.len(),
{
    if ls.len() == 0 {
        Some(Seq::empty())
    } else {
        match (cards_of(ls.drop_last()), line_card(ls.last())) {
            (Some(cs), Some(c)) => Some(cs.push(c)),
            _ => None,
        }
    }
}

/// The points of all cards summed.
pub open spec fn points_sum(cards: Seq<(int, int)>) -> int
    decreases cards.len(),
{
    if cards.len() == 0 {
        0
    } else {
        points_sum(cards.drop_last()) + spec_points(cards.last().1)
    }
}

/// Cards without any holding the given number.
pub open spec fn remove_id(cards: Seq<(int, int)>, id: int) -> Seq<(int, int)>
    decreases cards.len(),
{
    if cards.len() == 0 {
        Seq::empty()
    } else if cards.last().0 == id {
        remove_id(cards.drop_last(), id)
    } else {
        remove_id(cards.drop_last(), id).push(cards.last())
    }
}

/// One card per number: of several cards with the same number, the last
/// one read stands.
pub open spec fn keep_last(cards: Seq<(int, int)>) -> Seq<(int, int)>
    decreases cards.len(),
{
    if cards.len() == 0 {
        Seq::empty()
    } else {
        remove_id(keep_last(cards.drop_last()), cards.last().0).push(cards.last())
    }
}

/// Inserts a card into a sequence sorted by card number, from the back.
pub open spec fn insert_card(sorted: Seq<(int, int)>, c: (int, int)) -> Seq<(int, int)>
    decreases sorted.len(),
{
    if sorted.len() == 0 {
        seq![c]
    } else if c.0 < sorted.last().0 {
        insert_card(sorted.drop_last(), c).push(sorted.last())
    } else {
        sorted.push(c)
    }
}

pub open spec fn sort_cards(cards: Seq<(int, int)>) -> Seq<(int, int)>
    decreases cards.len(),
{
    if cards.len() == 0 {
        Seq::empty()
    } else {
        insert_card(sort_cards(cards.drop_last()), cards.last())
    }
}

/// Every card starts as one copy.
pub open spec fn ones(n: int) -> Seq<int> {
    Seq::new(if n >= 0 {
        n as nat
    } else {
        0
    }, |j: int| 1)
}

/// Card `i` awards its copies to every card whose number lies in the next
/// `matches` numbers.
pub open spec fn bump(cards: Seq<(int, int)>, freqs: Seq<int>, i: int) -> Seq<int> {
    Seq::new(
        freqs.len(),
        |j: int|
            if 0 <= j < cards.len() && 0 <= i < cards.len() && cards[i].0 < cards[j].0
                && cards[j].0 <= cards[i].0 + cards[i].1 {
                freqs[j] + freqs[i]
            } else {
                freqs[j]
            },
    )
}

/// The copy counts after the first `i` cards have awarded theirs.
pub open spec fn copies_after(cards: Seq<(int, int)>, i: int) -> Seq<int>
    decreases i,
{
    if i <= 0 {
        ones(cards.len() as int)
    } else {
        bump(cards, copies_after(cards, i - 1), i - 1)
    }
}

pub open spec fn seq_sum(s: Seq<int>) -> int
    decreases s.len(),
{
    if s.len() == 0 {
        0
    } else {
        seq_sum(s.drop_last()) + s.last()
    }
}

/// The answer of the second part: the total number of cards held after
/// every card, taken in ascending card number with duplicates resolved to
/// the last read, has awarded its copies.
pub open spec fn total_cards(ls: Seq<Seq<char>>) -> int {
    let sorted = sort_cards(keep_last(cards_of(ls)->Some_0));
    seq_sum(copies_after(sorted, sorted.len() as int))
}

pub proof fn lemma_last_bar_exact(line: Seq<char>, b: int)
    requires
        0 <= b <= line.len(),
        b < line.len() ==> line[b] == '|',
        forall|q: int| b < q < line.len() ==> line[q] != '|',
        b == line.len() ==> forall|q: int| 0 <= q < line.len() ==> line[q] != '|',
    ensures
        last_bar(line) == if b < line.len() {
            b
        } else {
            line.len() as int
        },
    decreases line.len(),
{
    lemma_last_bar(line);
    if b < line.len() {
        if last_bar(line) < b {
            assert(line[b] == '|');
        }
        if last_bar(line) > b {
            assert(line[last_bar(line)] == '|');
        }
    } else {
        if last_bar(line) < line.len() {
            assert(line[last_bar(line)] == '|');
        }
    }
}

pub proof fn lemma_inter_count_bounds(win: Seq<int>, have: Seq<int>)
    ensures
        0 <= inter_count(win, have) <= win.len(),
    decreases win.len(),
{
    if win.len() > 0 {
        lemma_inter_count_bounds(win.drop_last(), have);
    }
}

/// Finds the card-number run of the line.
fn scan_card_run(line: &Vec<char>) -> (r: Option<(usize, usize)>)
    ensures
        match r {
            Some(p) => first_card_run(line@, spec_runs(line@)) == Some(
                (p.0 as int, p.1 as int),
            ),
            None => first_card_run(line@, spec_runs(line@)) is None,
        },
{
    let runs = runs_of(line);
    let rn = runs.len();
    let n = line.len();
    let mut i: usize = 0;
    proof {
        assert(spec_runs(line@).skip(0) =~= spec_runs(line@));
    }
    while i < rn
        invariant
            0 <= i <= rn,
            rn == runs@.len(),
            rn == spec_runs(line@).len(),
            n == line@.len(),
            forall|k: int|
                0 <= k < runs@.len() ==> (#[trigger] runs@[k]).0 as int == spec_runs(line@)[k].0
                    && runs@[k].1 as int == spec_runs(line@)[k].1,
            forall|k: int|
                0 <= k < runs@.len() ==> 0 <= (#[trigger] runs@[k]).0 < runs@[k].1
                    <= line@.len(),
            first_card_run(line@, spec_runs(line@)) == first_card_run(
                line@,
                spec_runs(line@).skip(i as int),
            ),
        decreases rn - i,
    {
        let (a, b) = runs[i];
        let ghost rr = spec_runs(line@)[i as int];
        proof {
            assert(spec_runs(line@).skip(i as int).first() == rr);
            assert(spec_runs(line@).skip(i as int).drop_first() =~= spec_runs(line@).skip(i + 1));
        }
        let colon_ok = b < n && line[b] == ':';
        // Walk back over the spaces before the digits, then expect `Card`.
        let mut q: usize = a;
        while q > 0
            invariant
                0 <= q <= a,
                a <= n,
                n == line@.len(),
                forall|z: int| q <= z < a ==> is_space(#[trigger] line@[z]),
            ensures
                0 <= q <= a,
                forall|z: int| q <= z < a ==> is_space(#[trigger] line@[z]),
                q > 0 ==> !is_space(line@[q - 1]),
            decreases q,
        {
            let c = line[q - 1];
            if !(c == ' ' || c == '\t' || c == '\r' || c == '\u{b}' || c == '\u{c}') {
                break;
            }
            q = q - 1;
        }
        let mut word: Vec<char> = Vec::new();
        word.push('C');
        word.push('a');
        word.push('r');
        word.push('d');
        proof {
            assert(word@ =~= seq!['C', 'a', 'r', 'd']);
        }
        let word_ok = q >= 4 && prefix_matches(line, q - 4, &word);
        let matches = colon_ok && word_ok;
        proof {
            if matches {
                assert(line@.subrange(q - 4, q - 4 + 4) == seq!['C', 'a', 'r', 'd']);
                assert(card_run_at(line@, rr));
            } else if colon_ok {
                if card_run_at(line@, rr) {
                    let p = choose|p: int|
                        #![trigger line@.subrange(p, p + 4)]
                        0 <= p && p + 4 <= rr.0 && line@.subrange(p, p + 4) == seq![
                            'C',
                            'a',
                            'r',
                            'd',
                        ] && (forall|z: int| p + 4 <= z < rr.0 ==> is_space(#[trigger] line@[z]));
                    assert(q <= p + 4) by {
                        if q > p + 4 {
                            assert(is_space(line@[q - 1]) == false);
                            assert(p + 4 <= q - 1 < rr.0);
                        }
                    }
                    assert(q == p + 4) by {
                        if q < p + 4 {
                            assert(line@.subrange(p, p + 4)[3] == 'd');
                            assert(line@[p + 3] == 'd');
                            assert(q <= p + 3 < a);
                            assert(is_space('d') == false);
                        }
                    }
                    assert(line@.subrange(q - 4, q - 4 + 4) =~= line@.subrange(p, p + 4));
                    assert(false);
                }
            } else {
                assert(!card_run_at(line@, rr));
            }
        }
        if matches {
            return Some((a, b));
        }
        i = i + 1;
    }
    proof {
        assert(spec_runs(line@).skip(rn as int) =~= Seq::<(int, int)>::empty());
    }
    None
}

/// Finds the last bar of the line, or its length when none occurs.
fn scan_last_bar(line: &Vec<char>) -> (r: usize)
    ensures
        r as int == last_bar(line@),
{
    let n = line.len();
    let mut j: usize = n;
    while j > 0
        invariant
            0 <= j <= n,
            n == line@.len(),
            forall|q: int| j <= q < n ==> line@[q] != '|',
        ensures
            0 <= j <= n,
            forall|q: int| j <= q < n ==> line@[q] != '|',
            j > 0 ==> line@[j - 1] == '|',
        decreases j,
    {
        if line[j - 1] == '|' {
            break;
        }
        j = j - 1;
    }
    if j > 0 {
        proof {
            lemma_last_bar_exact(line@, j - 1);
        }
        j - 1
    } else {
        proof {
            lemma_last_bar_exact(line@, n as int);
        }
        n
    }
}

/// The values of the digit runs lying strictly after `lo` and ending by
/// `hi`; `None` when one of them leaves the signed 32-bit domain.
fn scan_region(line: &Vec<char>, lo: usize, hi: usize) -> (r: Option<Vec<u64>>)
    requires
        hi <= line@.len(),
    ensures
        match r {
            Some(vs) => {
                &&& vs@.len() == region_vals(line@, spec_runs(line@), lo as int, hi as int).len()
                &&& forall|k: int|
                    0 <= k < vs@.len() ==> (#[trigger] vs@[k]) as int == region_vals(
                        line@,
                        spec_runs(line@),
                        lo as int,
                        hi as int,
                    )[k]
                &&& vals_small(region_vals(line@, spec_runs(line@), lo as int, hi as int))
            },
            None => !vals_small(region_vals(line@, spec_runs(line@), lo as int, hi as int)),
        },
{
    let runs = runs_of(line);
    let rn = runs.len();
    let mut out: Vec<u64> = Vec::new();
    let mut i: usize = 0;
    proof {
        assert(spec_runs(line@).take(0) =~= Seq::<(int, int)>::empty());
    }
    while i < rn
        invariant
            0 <= i <= rn,
            rn == runs@.len(),
            rn == spec_runs(line@).len(),
            hi <= line@.len(),
            forall|k: int|
                0 <= k < runs@.len() ==> (#[trigger] runs@[k]).0 as int == spec_runs(line@)[k].0
                    && runs@[k].1 as int == spec_runs(line@)[k].1,
            forall|k: int|
                0 <= k < runs@.len() ==> 0 <= (#[trigger] runs@[k]).0 < runs@[k].1
                    <= line@.len(),
            out@.len() == region_vals(line@, spec_runs(line@).take(i as int), lo as int, hi as int).len(),
            forall|k: int|
                0 <= k < out@.len() ==> (#[trigger] out@[k]) as int == region_vals(
                    line@,
                    spec_runs(line@).take(i as int),
                    lo as int,
                    hi as int,
                )[k],
            vals_small(region_vals(line@, spec_runs(line@).take(i as int), lo as int, hi as int)),
            forall|k: int|
                0 <= k < region_vals(line@, spec_runs(line@), lo as int, hi as int).len()
                    ==> region_vals(line@, spec_runs(line@), lo as int, hi as int)[k]
                    == region_vals(line@, spec_runs(line@), lo as int, hi as int)[k],
        decreases rn - i,
    {
        let (a, b) = runs[i];
        let ghost rr = spec_runs(line@)[i as int];
        proof {
            assert(spec_runs(line@).take(i + 1).drop_last() =~= spec_runs(line@).take(i as int));
            assert(spec_runs(line@).take(i + 1).last() == rr);
        }
        if lo < a && b <= hi {
            let piece = slice_chars(line, a, b);
            proof {
                lemma_runs_all_digits(line@, i as int);
                assert(!crate::text::is_digit('+'));
                assert(piece@[0] != '+');
                assert(crate::text::unsigned_body(piece@) =~= piece@);
                crate::text::lemma_digits_val_nonneg(piece@);
            }
            match parse_u64(&piece) {
                Some(v) => {
                    if v > i32::MAX as u64 {
                        proof {
                            lemma_region_vals_prefix_bad(
                                line@,
                                spec_runs(line@),
                                lo as int,
                                hi as int,
                                i as int,
                            );
                        }
                        return None;
                    }
                    out.push(v);
                },
                None => {
                    proof {
                        assert(digits_val(piece@) > u64::MAX);
                        lemma_region_vals_prefix_bad(
                            line@,
                            spec_runs(line@),
                            lo as int,
                            hi as int,
                            i as int,
                        );
                    }
                    return None;
                },
            }
        }
        i = i + 1;
    }
    proof {
        assert(spec_runs(line@).take(rn as int) =~= spec_runs(line@));
    }
    Some(out)
}

/// A region value outside the domain spoils the whole region.
pub proof fn lemma_region_vals_prefix_bad(
    line: Seq<char>,
    runs: Seq<(int, int)>,
    lo: int,
    hi: int,
    i: int,
)
    requires
        0 <= i < runs.len(),
        lo < runs[i].0 && runs[i].1 <= hi,
        !(0 <= digits_val(line.subrange(runs[i].0, runs[i].1)) <= i32::MAX),
    ensures
        !vals_small(region_vals(line, runs, lo, hi)),
    decreases runs.len(),
{
    if i == runs.len() - 1 {
        let full = region_vals(line, runs, lo, hi);
        assert(full.last() == digits_val(line.subrange(runs[i].0, runs[i].1)));
    } else {
        assert(runs.drop_last()[i] == runs[i]);
        lemma_region_vals_prefix_bad(line, runs.drop_last(), lo, hi, i);
        let pre = region_vals(line, runs.drop_last(), lo, hi);
        let full = region_vals(line, runs, lo, hi);
        let k = choose|k: int| 0 <= k < pre.len() && !(0 <= #[trigger] pre[k] <= i32::MAX);
        assert(full[k] == pre[k]);
    }
}

/// True iff `x` occurs among the first `m` entries.
fn contains_val(v: &Vec<u64>, m: usize, x: u64) -> (r: bool)
    requires
        m <= v@.len(),
    ensures
        r == exists|k: int| 0 <= k < m && (#[trigger] v@[k]) == x,
{
    let mut k: usize = 0;
    while k < m
        invariant
            0 <= k <= m,
            m <= v@.len(),
            forall|z: int| 0 <= z < k ==> (#[trigger] v@[z]) != x,
        decreases m - k,
    {
        if v[k] == x {
            return true;
        }
        k = k + 1;
    }
    false
}

/// Counts the distinct winning values that occur among the held values.
fn count_matches(win: &Vec<u64>, have: &Vec<u64>) -> (r: usize)
    ensures
        r as int == inter_count(
            win@.map_values(|x: u64| x as int),
            have@.map_values(|x: u64| x as int),
        ),
        r <= win@.len(),
{
    let ghost wi = win@.map_values(|x: u64| x as int);
    let ghost hi_s = have@.map_values(|x: u64| x as int);
    let n = win.len();
    let hn = have.len();
    let mut cnt: usize = 0;
    let mut i: usize = 0;
    proof {
        assert(wi.take(0) =~= Seq::<int>::empty());
    }
    while i < n
        invariant
            0 <= i <= n,
            n == win@.len(),
            hn == have@.len(),
            wi == win@.map_values(|x: u64| x as int),
            hi_s == have@.map_values(|x: u64| x as int),
            cnt as int == inter_count(wi.take(i as int), hi_s),
            cnt <= i,
        decreases n - i,
    {
        let x = win[i];
        let in_have = contains_val(have, hn, x);
        let seen = contains_val(win, i, x);
        proof {
            assert(wi.take(i + 1).drop_last() =~= wi.take(i as int));
            assert(wi.take(i + 1).last() == x as int);
            assert(in_have == hi_s.contains(x as int)) by {
                if in_have {
                    let k = choose|k: int| 0 <= k < hn && (#[trigger] have@[k]) == x;
                    assert(hi_s[k] == x as int);
                } else {
                    if hi_s.contains(x as int) {
                        let k = choose|k: int| 0 <= k < hi_s.len() && hi_s[k] == x as int;
                        assert(have@[k] as int == x as int);
                        assert(have@[k] == x);
                    }
                }
            }
            assert(seen == wi.take(i as int).contains(x as int)) by {
                if seen {
                    let k = choose|k: int| 0 <= k < i && (#[trigger] win@[k]) == x;
                    assert(wi.take(i as int)[k] == x as int);
                } else {
                    if wi.take(i as int).contains(x as int) {
                        let k = choose|k: int|
                            0 <= k < i && wi.take(i as int)[k] == x as int;
                        assert(win@[k] as int == x as int);
                        assert(win@[k] == x);
                    }
                }
            }
        }
        if in_have && !seen {
            cnt = cnt + 1;
        }
        i = i + 1;
    }
    proof {
        assert(wi.take(n as int) =~= wi);
        lemma_inter_count_bounds(wi, hi_s);
    }
    cnt
}

/// Reads one line's card, exactly when the line declares one.
pub fn parse_card(line: &Vec<char>) -> (r: Option<(u32, u32)>)
    ensures
        match r {
            Some(c) => line_card(line@) == Some((c.0 as int, c.1 as int)),
            None => line_card(line@) is None,
        },
{
    let n = line.len();
    let (a, b) = match scan_card_run(line) {
        Some(p) => p,
        None => {
            return None;
        },
    };
    let bar = scan_last_bar(line);
    if bar >= n {
        return None;
    }
    let win = match scan_region(line, b, bar) {
        Some(v) => v,
        None => {
            return None;
        },
    };
    let have = match scan_region(line, bar, n) {
        Some(v) => v,
        None => {
            return None;
        },
    };
    let ghost rr = (a as int, b as int);
    let ghost win_s = region_vals(line@, spec_runs(line@), b as int, bar as int);
    let ghost have_s = region_vals(line@, spec_runs(line@), bar as int, n as int);
    proof {
        assert(win@.map_values(|x: u64| x as int) =~= win_s);
        assert(have@.map_values(|x: u64| x as int) =~= have_s);
        lemma_first_card_is_run(line@, spec_runs(line@));
        let k = choose|k: int|
            0 <= k < spec_runs(line@).len() && #[trigger] spec_runs(line@)[k] == (
                a as int,
                b as int,
            );
        lemma_runs_all_digits(line@, k);
        assert(0 <= a && (a as int) < (b as int) <= line@.len());
        assert(crate::text::is_digit(line@[a as int]));
        assert(!crate::text::is_digit('+'));
    }
    let piece = slice_chars(line, a, b);
    proof {
        assert(piece@[0] == line@[a as int]);
        assert(piece@[0] != '+');
        assert(crate::text::unsigned_body(piece@) =~= piece@);
        crate::text::lemma_digits_val_nonneg(piece@);
    }
    let id = match parse_u64(&piece) {
        Some(v) => {
            if v > u32::MAX as u64 {
                return None;
            }
            v as u32
        },
        None => {
            proof {
                assert(digits_val(piece@) > u64::MAX);
            }
            return None;
        },
    };
    let m = count_matches(&win, &have);
    if m > u32::MAX as usize {
        return None;
    }
    proof {
        lemma_inter_count_bounds(win_s, have_s);
    }
    Some((id, m as u32))
}

/// The run the scanner settles on is one of the line's digit runs.
pub proof fn lemma_first_card_is_run(line: Seq<char>, runs: Seq<(int, int)>)
    ensures
        match first_card_run(line, runs) {
            Some(r) => exists|k: int| 0 <= k < runs.len() && #[trigger] runs[k] == r,
            None => true,
        },
    decreases runs.len(),
{
    if runs.len() > 0 && !card_run_at(line, runs.first()) {
        lemma_first_card_is_run(line, runs.drop_first());
        match first_card_run(line, runs.drop_first()) {
            Some(r) => {
                let k = choose|k: int|
                    0 <= k < runs.drop_first().len() && #[trigger] runs.drop_first()[k] == r;
                assert(runs[k + 1] == r);
            },
            None => {},
        }
    }
}

/// A prefix of readable lines yields the prefix of the cards.
pub proof fn lemma_cards_of_prefix(ls: Seq<Seq<char>>, i: int)
    requires
        cards_of(ls) is Some,
        0 <= i <= ls.len(),
    ensures
        cards_of(ls)->Some_0.len() == ls.len(),
        cards_of(ls.take(i)) == Some(cards_of(ls)->Some_0.take(i)),
        forall|k: int| i <= k < ls.len() ==> line_card(#[trigger] ls[k]) is Some,
        forall|k: int|
            i <= k < ls.len() ==> cards_of(ls)->Some_0[k] == line_card(#[trigger] ls[k])->Some_0,
    decreases ls.len() - i,
{
    if i < ls.len() {
        lemma_cards_of_prefix(ls, i + 1);
        assert(ls.take(i + 1).drop_last() =~= ls.take(i));
        assert(ls.take(i + 1).last() == ls[i]);
        let cs = cards_of(ls)->Some_0;
        assert(cs.take(i + 1).drop_last() =~= cs.take(i));
        assert(cards_of(ls.take(i + 1)) == Some(cs.take(i + 1)));
        assert(line_card(ls[i]) is Some) by {
            if line_card(ls[i]) is None {
                assert(cards_of(ls.take(i + 1)) is None);
            }
        }
        assert(cs.take(i + 1).last() == cs[i]);
        assert(cards_of(ls.take(i + 1))->Some_0 == cards_of(ls.take(i))->Some_0.push(
            line_card(ls[i])->Some_0,
        ));
        assert(cs[i] == line_card(ls[i])->Some_0);
    } else {
        assert(ls.take(i) =~= ls);
        lemma_cards_len(ls);
        assert(cards_of(ls)->Some_0.take(ls.len() as int) =~= cards_of(ls)->Some_0);
    }
}

pub proof fn lemma_cards_len(ls: Seq<Seq<char>>)
    requires
        cards_of(ls) is Some,
    ensures
        cards_of(ls)->Some_0.len() == ls.len(),
    decreases ls.len(),
{
    if ls.len() > 0 {
        lemma_cards_len(ls.drop_last());
    }
}

pub proof fn lemma_points_sum_nonneg(cards: Seq<(int, int)>)
    ensures
        points_sum(cards) >= 0,
    decreases cards.len(),
{
    if cards.len() > 0 {
        lemma_points_sum_nonneg(cards.drop_last());
        lemma_pow2_pos(cards.last().1 - 1);
    }
}

/// Every readable line's card, with points that fit, summed within bounds.
pub open spec fn points_ok(ls: Seq<Seq<char>>) -> bool {
    &&& cards_of(ls) is Some
    &&& forall|k: int|
        0 <= k < cards_of(ls)->Some_0.len() ==> 0 <= (#[trigger] cards_of(ls)->Some_0[k]).1
            <= 32
    &&& forall|k: int|
        0 <= k <= cards_of(ls)->Some_0.len() ==> #[trigger] points_sum(
            cards_of(ls)->Some_0.take(k),
        ) <= u32::MAX
}

/// The sum of every card's points: one for a first match, doubled for each
/// further one.
pub fn part_one(input: &str) -> (r: u32)
    requires
        points_ok(spec_lines(input@)),
    ensures
        r as int == points_sum(cards_of(spec_lines(input@))->Some_0),
{
    let cs = chars_of(input);
    let ls = lines_of(&cs);
    let ghost lv = crate::text::views(ls@);
    let ghost cards = cards_of(lv)->Some_0;
    let n = ls.len();
    let mut sum: u32 = 0;
    let mut i: usize = 0;
    proof {
        lemma_cards_of_prefix(lv, 0);
        assert(cards.take(0) =~= Seq::<(int, int)>::empty());
    }
    while i < n
        invariant
            0 <= i <= n,
            n == ls@.len(),
            n == lv.len(),
            lv == crate::text::views(ls@),
            points_ok(lv),
            cards == cards_of(lv)->Some_0,
            cards.len() == n,
            sum as int == points_sum(cards.take(i as int)),
        decreases n - i,
    {
        proof {
            assert(lv[i as int] == ls@[i as int]@);
            lemma_cards_of_prefix(lv, i as int);
        }
        let (id, m) = match parse_card(&ls[i]) {
            Some(c) => c,
            None => {
                proof {
                    assert(false);
                }
                return 0;
            },
        };
        let card = Card { id, intersection_size: m, frequency: 1 };
        proof {
            assert(cards[i as int] == (id as int, m as int));
        }
        let points = Card::get_points(card);
        proof {
            assert(cards.take(i + 1).drop_last() =~= cards.take(i as int));
            assert(cards.take(i + 1).last() == cards[i as int]);
            assert(points_sum(cards.take(i + 1)) <= u32::MAX);
            lemma_points_sum_nonneg(cards.take(i as int));
            lemma_pow2_pos(m as int - 1);
        }
        sum = sum + points;
        i = i + 1;
    }
    proof {
        assert(cards.take(n as int) =~= cards);
    }
    sum
}

/// The card numbers and match counts a vector of cards carries.
pub open spec fn tuples_of(s: Seq<Card>) -> Seq<(int, int)> {
    s.map_values(|c: Card| ((c.id as int, c.intersection_size as int)))
}

/// The copy counts a vector of cards carries.
pub open spec fn freqs_of(s: Seq<Card>) -> Seq<int> {
    s.map_values(|c: Card| c.frequency as int)
}

/// The cards after deduplication and ordering by card number.
pub open spec fn sorted_cards(ls: Seq<Seq<char>>) -> Seq<(int, int)> {
    sort_cards(keep_last(cards_of(ls)->Some_0))
}

pub proof fn lemma_copies_len(cards: Seq<(int, int)>, i: int)
    requires
        i >= 0,
    ensures
        copies_after(cards, i).len() == cards.len(),
    decreases i,
{
    if i > 0 {
        lemma_copies_len(cards, i - 1);
    }
}

pub proof fn lemma_copies_nonneg(cards: Seq<(int, int)>, i: int)
    requires
        i >= 0,
    ensures
        forall|j: int|
            0 <= j < copies_after(cards, i).len() ==> #[trigger] copies_after(cards, i)[j] >= 0,
    decreases i,
{
    lemma_copies_len(cards, i);
    if i > 0 {
        lemma_copies_nonneg(cards, i - 1);
        lemma_copies_len(cards, i - 1);
    }
}

pub proof fn lemma_seq_sum_prefix(s: Seq<int>, k: int)
    requires
        0 <= k <= s.len(),
        forall|j: int| 0 <= j < s.len() ==> #[trigger] s[j] >= 0,
    ensures
        0 <= seq_sum(s.take(k)) <= seq_sum(s),
    decreases s.len() - k, k,
{
    lemma_seq_sum_nonneg(s.take(k));
    if k < s.len() {
        lemma_seq_sum_prefix(s, k + 1);
        assert(s.take(k + 1).drop_last() =~= s.take(k));
    } else {
        assert(s.take(k) =~= s);
    }
}

pub proof fn lemma_seq_sum_nonneg(s: Seq<int>)
    requires
        forall|j: int| 0 <= j < s.len() ==> #[trigger] s[j] >= 0,
    ensures
        seq_sum(s) >= 0,
    decreases s.len(),
{
    if s.len() > 0 {
        assert(forall|j: int|
            0 <= j < s.drop_last().len() ==> #[trigger] s.drop_last()[j] == s[j]);
        lemma_seq_sum_nonneg(s.drop_last());
    }
}

/// Every copy count along the awarding, and the final total, stays within
/// the result type.
pub open spec fn copies_ok(ls: Seq<Seq<char>>) -> bool {
    &&& cards_of(ls) is Some
    &&& forall|i: int, j: int|
        0 <= i <= sorted_cards(ls).len() && 0 <= j < sorted_cards(ls).len() ==> #[trigger] copies_after(
            sorted_cards(ls),
            i,
        )[j] <= u32::MAX
    &&& seq_sum(
        copies_after(sorted_cards(ls), sorted_cards(ls).len() as int),
    ) <= u32::MAX
}

/// Removes every card holding the given number.
fn remove_id_cards(cards: &Vec<Card>, id: u32) -> (r: Vec<Card>)
    ensures
        tuples_of(r@) == remove_id(tuples_of(cards@), id as int),
        forall|k: int|
            0 <= k < r@.len() ==> (#[trigger] r@[k]).frequency == 1 || exists|z: int|
                0 <= z < cards@.len() && cards@[z] == r@[k],
{
    let n = cards.len();
    let mut out: Vec<Card> = Vec::new();
    let mut k: usize = 0;
    proof {
        assert(tuples_of(cards@.take(0)) =~= Seq::<(int, int)>::empty());
        assert(tuples_of(out@) =~= remove_id(tuples_of(cards@.take(0)), id as int));
    }
    while k < n
        invariant
            0 <= k <= n,
            n == cards@.len(),
            tuples_of(out@) == remove_id(tuples_of(cards@.take(k as int)), id as int),
            forall|z: int|
                0 <= z < out@.len() ==> exists|w: int|
                    0 <= w < cards@.len() && cards@[w] == #[trigger] out@[z],
        decreases n - k,
    {
        let c = cards[k];
        proof {
            assert(tuples_of(cards@.take(k + 1)).drop_last() =~= tuples_of(
                cards@.take(k as int),
            ));
            assert(tuples_of(cards@.take(k + 1)).last() == (
                c.id as int,
                c.intersection_size as int,
            ));
        }
        if c.id != id {
            let ghost old_out = out@;
            out.push(c);
            proof {
                assert(tuples_of(out@) =~= tuples_of(old_out).push(
                    (c.id as int, c.intersection_size as int),
                ));
            }
        }
        k = k + 1;
    }
    proof {
        assert(cards@.take(n as int) =~= cards@);
    }
    out
}

/// The insertion point found by the backward scan pins the sorted insert.
pub proof fn lemma_insert_card_at(s: Seq<(int, int)>, c: (int, int), j: int)
    requires
        0 <= j <= s.len(),
        forall|k: int| j <= k < s.len() ==> c.0 < (#[trigger] s[k]).0,
        j > 0 ==> !(c.0 < s[j - 1].0),
    ensures
        insert_card(s, c) == s.subrange(0, j).push(c) + s.subrange(j, s.len() as int),
    decreases s.len() - j,
{
    if j == s.len() {
        if s.len() == 0 {
            assert(insert_card(s, c) =~= s.subrange(0, j).push(c) + s.subrange(
                j,
                s.len() as int,
            ));
        } else {
            assert(s.subrange(0, j) =~= s);
            assert(insert_card(s, c) =~= s.subrange(0, j).push(c) + s.subrange(
                j,
                s.len() as int,
            ));
        }
    } else {
        let pre = s.drop_last();
        assert(forall|k: int| j <= k < pre.len() ==> c.0 < (#[trigger] pre[k]).0);
        lemma_insert_card_at(pre, c, j);
        assert(pre.subrange(0, j) =~= s.subrange(0, j));
        assert(insert_card(s, c) == insert_card(pre, c).push(s.last()));
        assert(insert_card(pre, c).push(s.last()) =~= s.subrange(0, j).push(c) + s.subrange(
            j,
            s.len() as int,
        ));
    }
}

/// The total number of cards finally held, every card having awarded one
/// copy of each of the next cards per match, by ascending card number with
/// duplicate numbers resolved to the last card read.
pub fn part_two(input: &str) -> (r: u32)
    requires
        copies_ok(spec_lines(input@)),
    ensures
        r as int == total_cards(spec_lines(input@)),
{
    let cs = chars_of(input);
    let ls = lines_of(&cs);
    let ghost lv = crate::text::views(ls@);
    let ghost cards_s = cards_of(lv)->Some_0;
    let n = ls.len();
    let mut parsed: Vec<Card> = Vec::new();
    let mut i: usize = 0;
    proof {
        lemma_cards_of_prefix(lv, 0);
        assert(tuples_of(parsed@) =~= cards_s.take(0));
    }
    while i < n
        invariant
            0 <= i <= n,
            n == ls@.len(),
            n == lv.len(),
            lv == crate::text::views(ls@),
            cards_of(lv) is Some,
            cards_s == cards_of(lv)->Some_0,
            cards_s.len() == n,
            tuples_of(parsed@) == cards_s.take(i as int),
            forall|z: int| 0 <= z < parsed@.len() ==> (#[trigger] parsed@[z]).frequency == 1,
        decreases n - i,
    {
        proof {
            assert(lv[i as int] == ls@[i as int]@);
            lemma_cards_of_prefix(lv, i as int);
        }
        let (id, m) = match parse_card(&ls[i]) {
            Some(c) => c,
            None => {
                proof {
                    assert(false);
                }
                return 0;
            },
        };
        let ghost old_parsed = parsed@;
        parsed.push(Card { id, intersection_size: m, frequency: 1 });
        proof {
            assert(cards_s[i as int] == (id as int, m as int));
            assert(tuples_of(parsed@) =~= tuples_of(old_parsed).push((id as int, m as int)));
            assert(cards_s.take(i + 1) =~= cards_s.take(i as int).push(cards_s[i as int]));
        }
        i = i + 1;
    }
    proof {
        assert(cards_s.take(n as int) =~= cards_s);
    }
    // One card per number: the last read stands.
    let mut unique: Vec<Card> = Vec::new();
    let mut i2: usize = 0;
    proof {
        assert(tuples_of(unique@) =~= keep_last(cards_s.take(0)));
    }
    while i2 < parsed.len()
        invariant
            0 <= i2 <= parsed@.len(),
            tuples_of(parsed@) == cards_s,
            cards_s.len() == parsed@.len(),
            tuples_of(unique@) == keep_last(cards_s.take(i2 as int)),
            forall|z: int| 0 <= z < parsed@.len() ==> (#[trigger] parsed@[z]).frequency == 1,
            forall|z: int| 0 <= z < unique@.len() ==> (#[trigger] unique@[z]).frequency == 1,
        decreases parsed@.len() - i2,
    {
        let c = parsed[i2];
        let mut pruned = remove_id_cards(&unique, c.id);
        proof {
            assert(cards_s.take(i2 + 1).drop_last() =~= cards_s.take(i2 as int));
            assert(cards_s.take(i2 + 1).last() == cards_s[i2 as int]);
            assert(cards_s[i2 as int] == (c.id as int, c.intersection_size as int));
        }
        let ghost old_pruned = pruned@;
        pruned.push(c);
        proof {
            assert(tuples_of(pruned@) =~= tuples_of(old_pruned).push(
                (c.id as int, c.intersection_size as int),
            ));
            assert forall|z: int| 0 <= z < pruned@.len() implies (
            #[trigger] pruned@[z]).frequency == 1 by {
                if z < old_pruned.len() {
                    assert(old_pruned[z].frequency == 1 || exists|w: int|
                        0 <= w < unique@.len() && unique@[w] == old_pruned[z]);
                }
            }
        }
        unique = pruned;
        i2 = i2 + 1;
    }
    proof {
        assert(cards_s.take(parsed@.len() as int) =~= cards_s);
    }
    // Order by card number.
    let ghost sorted_s = sorted_cards(lv);
    let mut sorted: Vec<Card> = Vec::new();
    let mut i3: usize = 0;
    proof {
        assert(tuples_of(unique@).take(0) =~= Seq::<(int, int)>::empty());
        assert(tuples_of(sorted@) =~= sort_cards(tuples_of(unique@).take(0)));
    }
    while i3 < unique.len()
        invariant
            0 <= i3 <= unique@.len(),
            tuples_of(unique@) == keep_last(cards_s),
            tuples_of(sorted@) == sort_cards(tuples_of(unique@).take(i3 as int)),
            forall|z: int| 0 <= z < unique@.len() ==> (#[trigger] unique@[z]).frequency == 1,
            forall|z: int| 0 <= z < sorted@.len() ==> (#[trigger] sorted@[z]).frequency == 1,
        decreases unique@.len() - i3,
    {
        let c = unique[i3];
        let ghost ct = (c.id as int, c.intersection_size as int);
        let mut j: usize = sorted.len();
        while j > 0
            invariant
                0 <= j <= sorted@.len(),
                ct == (c.id as int, c.intersection_size as int),
                forall|k: int|
                    j <= k < sorted@.len() ==> ct.0 < (#[trigger] tuples_of(sorted@)[k]).0,
            ensures
                0 <= j <= sorted@.len(),
                forall|k: int|
                    j <= k < sorted@.len() ==> ct.0 < (#[trigger] tuples_of(sorted@)[k]).0,
                j > 0 ==> !(ct.0 < tuples_of(sorted@)[j - 1].0),
            decreases j,
        {
            proof {
                assert(tuples_of(sorted@)[j - 1].0 == sorted@[j - 1].id as int);
            }
            if !(c.id < sorted[j - 1].id) {
                break;
            }
            j = j - 1;
        }
        let ghost old_sorted = sorted@;
        sorted.insert(j, c);
        proof {
            lemma_insert_card_at(tuples_of(old_sorted), ct, j as int);
            assert(tuples_of(sorted@) =~= tuples_of(old_sorted).subrange(0, j as int).push(ct)
                + tuples_of(old_sorted).subrange(j as int, old_sorted.len() as int));
            let uq = tuples_of(unique@);
            assert(uq.take(i3 + 1).drop_last() =~= uq.take(i3 as int));
            assert(uq.take(i3 + 1).last() == ct);
            assert(tuples_of(sorted@) == insert_card(tuples_of(old_sorted), ct));
        }
        i3 = i3 + 1;
    }
    proof {
        assert(tuples_of(unique@).take(unique@.len() as int) =~= tuples_of(unique@));
        assert(tuples_of(sorted@) == sorted_s);
    }
    // Each card awards its copies to the next numbers it matches.
    let sn = sorted.len();
    let mut cards = sorted;
    let mut step: usize = 0;
    proof {
        lemma_copies_len(sorted_s, 0);
        assert(freqs_of(cards@) =~= copies_after(sorted_s, 0));
    }
    while step < sn
        invariant
            0 <= step <= sn,
            sn == cards@.len(),
            sn == sorted_s.len(),
            copies_ok(lv),
            sorted_s == sorted_cards(lv),
            tuples_of(cards@) == sorted_s,
            freqs_of(cards@) == copies_after(sorted_s, step as int),
        decreases sn - step,
    {
        let fi = cards[step].frequency;
        let idi = cards[step].id;
        let mi = cards[step].intersection_size;
        let mut next: Vec<Card> = Vec::new();
        let mut j: usize = 0;
        proof {
            lemma_copies_len(sorted_s, step as int);
            lemma_copies_len(sorted_s, step as int + 1);
            lemma_copies_nonneg(sorted_s, step as int);
        }
        while j < sn
            invariant
                0 <= j <= sn,
                0 <= step < sn,
                sn == cards@.len(),
                sn == sorted_s.len(),
                copies_ok(lv),
                sorted_s == sorted_cards(lv),
                tuples_of(cards@) == sorted_s,
                freqs_of(cards@) == copies_after(sorted_s, step as int),
                fi == cards@[step as int].frequency,
                idi == cards@[step as int].id,
                mi == cards@[step as int].intersection_size,
                next@.len() == j,
                forall|z: int|
                    0 <= z < j ==> (#[trigger] next@[z]).id == cards@[z].id && next@[z]
                        .intersection_size == cards@[z].intersection_size,
                forall|z: int|
                    0 <= z < j ==> (#[trigger] next@[z]).frequency as int == copies_after(
                        sorted_s,
                        step as int + 1,
                    )[z],
            decreases sn - j,
        {
            let mut c = cards[j];
            proof {
                lemma_copies_len(sorted_s, step as int);
                lemma_copies_len(sorted_s, step as int + 1);
                lemma_copies_nonneg(sorted_s, step as int);
                assert(copies_after(sorted_s, step as int + 1) == bump(
                    sorted_s,
                    copies_after(sorted_s, step as int),
                    step as int,
                ));
                assert(sorted_s[j as int] == (c.id as int, c.intersection_size as int));
                assert(sorted_s[step as int] == (idi as int, mi as int));
                assert(c.frequency as int == copies_after(sorted_s, step as int)[j as int]);
                assert(fi as int == copies_after(sorted_s, step as int)[step as int]);
            }
            if (idi as u64) < (c.id as u64) && (c.id as u64) <= (idi as u64) + (mi as u64) {
                proof {
                    assert(copies_after(sorted_s, step as int + 1)[j as int] == c.frequency
                        + fi);
                    assert(copies_after(sorted_s, step as int + 1)[j as int] <= u32::MAX);
                }
                c.increase_frequency(fi);
            } else {
                proof {
                    assert(copies_after(sorted_s, step as int + 1)[j as int]
                        == c.frequency as int);
                }
            }
            next.push(c);
            j = j + 1;
        }
        proof {
            lemma_copies_len(sorted_s, step as int + 1);
            assert(tuples_of(next@) =~= sorted_s);
            assert(freqs_of(next@) =~= copies_after(sorted_s, step as int + 1));
        }
        cards = next;
        step = step + 1;
    }
    // Sum the copies held.
    let ghost final_copies = copies_after(sorted_s, sorted_s.len() as int);
    let mut total: u32 = 0;
    let mut k: usize = 0;
    proof {
        lemma_copies_len(sorted_s, sn as int);
        lemma_copies_nonneg(sorted_s, sn as int);
        assert(final_copies.take(0) =~= Seq::<int>::empty());
    }
    while k < sn
        invariant
            0 <= k <= sn,
            sn == cards@.len(),
            sn == sorted_s.len(),
            sn == final_copies.len(),
            final_copies == copies_after(sorted_s, sorted_s.len() as int),
            freqs_of(cards@) == final_copies,
            seq_sum(final_copies) <= u32::MAX,
            forall|j2: int| 0 <= j2 < final_copies.len() ==> #[trigger] final_copies[j2] >= 0,
            total as int == seq_sum(final_copies.take(k as int)),
        decreases sn - k,
    {
        proof {
            lemma_seq_sum_prefix(final_copies, k + 1);
            lemma_seq_sum_nonneg(final_copies.take(k as int));
            assert(final_copies.take(k + 1).drop_last() =~= final_copies.take(k as int));
            assert(final_copies.take(k + 1).last() == final_copies[k as int]);
            assert(cards@[k as int].frequency as int == final_copies[k as int]);
        }
        total = total + cards[k].frequency;
        k = k + 1;
    }
    proof {
        assert(final_copies.take(sn as int) =~= final_copies);
    }
    total
}

} // verus!
