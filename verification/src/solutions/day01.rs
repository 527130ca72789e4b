//! Calibration values: each line contributes the two-digit number formed by
//! its first and last digit; spelled-out digit names are first rewritten so
//! that they, too, count as digits.

use vstd::prelude::*;
use crate::text::{
    chars_of,
    lines_of,
    string_of,
    replace_chars,
    spec_lines,
    spec_replace,
    is_digit,
    digit_val,
};

verus! {

/// The digits of a line, in order.
pub open spec fn spec_digits(s: Seq<char>) -> Seq<u32>
    decreases s.len(),
{
    if s.len() == 0 {
        Seq::empty()
    } else if is_digit(s.last()) {
        spec_digits(s.drop_last()).push(digit_val(s.last()) as u32)
    } else {
        spec_digits(s.drop_last())
    }
}

/// The calibration value of a line: first digit, then last digit.
pub open spec fn line_val(s: Seq<char>) -> int {
    let d = spec_digits(s);
    d[0] * 10 + d[d.len() - 1]
}

/// The nine spelled-out digits, rewritten so the digit appears while the
/// spelling still overlaps its neighbours.
pub open spec fn spec_rewrite(s: Seq<char>) -> Seq<char> {
    let r1 = spec_replace(s, "one"@, "o1ne"@);
    let r2 = spec_replace(r1, "two"@, "t2wo"@);
    let r3 = spec_replace(r2, "three"@, "t3hree"@);
    let r4 = spec_replace(r3, "four"@, "f4our"@);
    let r5 = spec_replace(r4, "five"@, "f5ive"@);
    let r6 = spec_replace(r5, "six"@, "s6ix"@);
    let r7 = spec_replace(r6, "seven"@, "s7even"@);
    let r8 = spec_replace(r7, "eight"@, "e8ight"@);
    spec_replace(r8, "nine"@, "n9ne"@)
}

/// The sum of the calibration values of a list of lines.
pub open spec fn plain_sum(ls: Seq<Seq<char>>) -> int
    decreases ls.len(),
{
    if ls.len() == 0 {
        0
    } else {
        plain_sum(ls.drop_last()) + line_val(ls.last())
    }
}

/// The same sum after rewriting the spelled-out digits.
pub open spec fn rewritten_sum(ls: Seq<Seq<char>>) -> int
    decreases ls.len(),
{
    if ls.len() == 0 {
        0
    } else {
        rewritten_sum(ls.drop_last()) + line_val(spec_rewrite(ls.last()))
    }
}

/// Every line has at least one digit (after the given rewriting).
pub open spec fn plain_ok(ls: Seq<Seq<char>>) -> bool {
    forall|i: int| 0 <= i < ls.len() ==> spec_digits(#[trigger] ls[i]).len() > 0
}

pub open spec fn rewritten_ok(ls: Seq<Seq<char>>) -> bool {
    forall|i: int| 0 <= i < ls.len() ==> spec_digits(spec_rewrite(#[trigger] ls[i])).len() > 0
}

pub proof fn lemma_digits_bounded(s: Seq<char>)
    ensures
        forall|i: int|
            0 <= i < spec_digits(s).len() ==> 0 <= #[trigger] spec_digits(s)[i] <= 9,
    decreases s.len(),
{
    if s.len() > 0 {
        lemma_digits_bounded(s.drop_last());
        if is_digit(s.last()) {
            assert(0 <= digit_val(s.last()) <= 9);
            assert(spec_digits(s) == spec_digits(s.drop_last()).push(
                digit_val(s.last()) as u32,
            ));
            assert forall|i: int|
                0 <= i < spec_digits(s).len() implies 0 <= #[trigger] spec_digits(s)[i]
                <= 9 by {
                if i < spec_digits(s).len() - 1 {
                    assert(spec_digits(s)[i] == spec_digits(s.drop_last())[i]);
                }
            }
        } else {
            assert(spec_digits(s) == spec_digits(s.drop_last()));
        }
    }
}

pub proof fn lemma_line_val_bounded(s: Seq<char>)
    requires
        spec_digits(s).len() > 0,
    ensures
        0 <= line_val(s) <= 99,
{
    lemma_digits_bounded(s);
}

pub proof fn lemma_plain_sum_prefix(ls: Seq<Seq<char>>, k: int)
    requires
        plain_ok(ls),
        0 <= k <= ls.len(),
    ensures
        plain_sum(ls.subrange(0, k)) <= plain_sum(ls),
    decreases ls.len() - k,
{
    if k < ls.len() {
        lemma_plain_sum_prefix(ls, k + 1);
        let p = ls.subrange(0, k + 1);
        assert(p.drop_last() =~= ls.subrange(0, k));
        lemma_line_val_bounded(ls[k]);
    } else {
        assert(ls.subrange(0, k) =~= ls);
    }
}

pub proof fn lemma_rewritten_sum_prefix(ls: Seq<Seq<char>>, k: int)
    requires
        rewritten_ok(ls),
        0 <= k <= ls.len(),
    ensures
        rewritten_sum(ls.subrange(0, k)) <= rewritten_sum(ls),
    decreases ls.len() - k,
{
    if k < ls.len() {
        lemma_rewritten_sum_prefix(ls, k + 1);
        let p = ls.subrange(0, k + 1);
        assert(p.drop_last() =~= ls.subrange(0, k));
        lemma_line_val_bounded(spec_rewrite(ls[k]));
    } else {
        assert(ls.subrange(0, k) =~= ls);
    }
}

/// The digits of a line, in order of appearance.
pub fn find_digits(line: &str) -> (r: Vec<u32>)
    ensures
        r@ == spec_digits(line@),
{
    let cs = chars_of(line);
    digits_of(&cs)
}

fn digits_of(cs: &Vec<char>) -> (r: Vec<u32>)
    ensures
        r@ == spec_digits(cs@),
{
    let n = cs.len();
    let mut r: Vec<u32> = Vec::new();
    let mut i: usize = 0;
    proof {
        assert(cs@.take(0) =~= Seq::<char>::empty());
    }
    while i < n
        invariant
            0 <= i <= n,
            n == cs@.len(),
            r@ == spec_digits(cs@.take(i as int)),
        decreases n - i,
    {
        let c = cs[i];
        proof {
            assert(cs@.take(i + 1).drop_last() =~= cs@.take(i as int));
            assert(cs@.take(i + 1).last() == c);
        }
        if c >= '0' && c <= '9' {
            let d: u32 = (c as u32) - ('0' as u32);
            r.push(d);
        }
        i = i + 1;
    }
    proof {
        assert(cs@.take(n as int) =~= cs@);
    }
    r
}

/// The two-digit number formed by the first and the last entry.
pub fn combine_first_and_last(digits: Vec<u32>) -> (r: u32)
    requires
        digits@.len() > 0,
        forall|i: int| 0 <= i < digits@.len() ==> #[trigger] digits@[i] <= 9,
    ensures
        r as int == digits@[0] * 10 + digits@[digits@.len() - 1],
{
    digits[0] * 10 + digits[digits.len() - 1]
}

/// Rewrites the spelled-out digit names so each contains its digit.
pub fn replace(line: &str) -> (r: String)
    ensures
        r@ == spec_rewrite(line@),
{
    proof {
        reveal_strlit("one");
        reveal_strlit("o1ne");
        reveal_strlit("two");
        reveal_strlit("t2wo");
        reveal_strlit("three");
        reveal_strlit("t3hree");
        reveal_strlit("four");
        reveal_strlit("f4our");
        reveal_strlit("five");
        reveal_strlit("f5ive");
        reveal_strlit("six");
        reveal_strlit("s6ix");
        reveal_strlit("seven");
        reveal_strlit("s7even");
        reveal_strlit("eight");
        reveal_strlit("e8ight");
        reveal_strlit("nine");
        reveal_strlit("n9ne");
    }
    let cs = chars_of(line);
    let r1 = replace_chars(&cs, &chars_of("one"), &chars_of("o1ne"));
    let r2 = replace_chars(&r1, &chars_of("two"), &chars_of("t2wo"));
    let r3 = replace_chars(&r2, &chars_of("three"), &chars_of("t3hree"));
    let r4 = replace_chars(&r3, &chars_of("four"), &chars_of("f4our"));
    let r5 = replace_chars(&r4, &chars_of("five"), &chars_of("f5ive"));
    let r6 = replace_chars(&r5, &chars_of("six"), &chars_of("s6ix"));
    let r7 = replace_chars(&r6, &chars_of("seven"), &chars_of("s7even"));
    let r8 = replace_chars(&r7, &chars_of("eight"), &chars_of("e8ight"));
    let r9 = replace_chars(&r8, &chars_of("nine"), &chars_of("n9ne"));
    string_of(&r9)
}

/// The sum of every line's calibration value, digits read as they stand.
pub fn part_one(input: &str) -> (r: u32)
    requires
        plain_ok(spec_lines(input@)),
        plain_sum(spec_lines(input@)) <= u32::MAX,
    ensures
        r as int == plain_sum(spec_lines(input@)),
{
    let cs = chars_of(input);
    let ls = lines_of(&cs);
    let ghost lv = crate::text::views(ls@);
    let n = ls.len();
    let mut sum: u32 = 0;
    let mut i: usize = 0;
    proof {
        assert(lv.subrange(0, 0) =~= Seq::<Seq<char>>::empty());
    }
    while i < n
        invariant
            0 <= i <= n,
            n == lv.len(),
            lv == crate::text::views(ls@),
            n == ls@.len(),
            plain_ok(lv),
            plain_sum(lv) <= u32::MAX,
            sum as int == plain_sum(lv.subrange(0, i as int)),
        decreases n - i,
    {
        let digits = digits_of(&ls[i]);
        proof {
            assert(lv[i as int] == ls@[i as int]@);
            lemma_digits_bounded(lv[i as int]);
            lemma_plain_sum_prefix(lv, i + 1);
            assert(lv.subrange(0, i + 1).drop_last() =~= lv.subrange(0, i as int));
            lemma_line_val_bounded(lv[i as int]);
        }
        let v = combine_first_and_last(digits);
        sum = sum + v;
        i = i + 1;
    }
    proof {
        assert(lv.subrange(0, n as int) =~= lv);
    }
    sum
}

/// The same sum after rewriting spelled-out digit names.
pub fn part_two(input: &str) -> (r: u32)
    requires
        rewritten_ok(spec_lines(input@)),
        rewritten_sum(spec_lines(input@)) <= u32::MAX,
    ensures
        r as int == rewritten_sum(spec_lines(input@)),
{
    let cs = chars_of(input);
    let ls = lines_of(&cs);
    let ghost lv = crate::text::views(ls@);
    let n = ls.len();
    let mut sum: u32 = 0;
    let mut i: usize = 0;
    proof {
        assert(lv.subrange(0, 0) =~= Seq::<Seq<char>>::empty());
    }
    while i < n
        invariant
            0 <= i <= n,
            n == lv.len(),
            lv == crate::text::views(ls@),
            n == ls@.len(),
            rewritten_ok(lv),
            rewritten_sum(lv) <= u32::MAX,
            sum as int == rewritten_sum(lv.subrange(0, i as int)),
        decreases n - i,
    {
        proof {
            reveal_strlit("one");
            reveal_strlit("two");
            reveal_strlit("three");
            reveal_strlit("four");
            reveal_strlit("five");
            reveal_strlit("six");
            reveal_strlit("seven");
            reveal_strlit("eight");
            reveal_strlit("nine");
        }
        let r1 = replace_chars(&ls[i], &chars_of("one"), &chars_of("o1ne"));
        let r2 = replace_chars(&r1, &chars_of("two"), &chars_of("t2wo"));
        let r3 = replace_chars(&r2, &chars_of("three"), &chars_of("t3hree"));
        let r4 = replace_chars(&r3, &chars_of("four"), &chars_of("f4our"));
        let r5 = replace_chars(&r4, &chars_of("five"), &chars_of("f5ive"));
        let r6 = replace_chars(&r5, &chars_of("six"), &chars_of("s6ix"));
        let r7 = replace_chars(&r6, &chars_of("seven"), &chars_of("s7even"));
        let r8 = replace_chars(&r7, &chars_of("eight"), &chars_of("e8ight"));
        let r9 = replace_chars(&r8, &chars_of("nine"), &chars_of("n9ne"));
        let digits = digits_of(&r9);
        proof {
            assert(lv[i as int] == ls@[i as int]@);
            assert(r9@ == spec_rewrite(lv[i as int]));
            lemma_digits_bounded(r9@);
            lemma_rewritten_sum_prefix(lv, i + 1);
            assert(lv.subrange(0, i + 1).drop_last() =~= lv.subrange(0, i as int));
            lemma_line_val_bounded(spec_rewrite(lv[i as int]));
        }
        let v = combine_first_and_last(digits);
        sum = sum + v;
        i = i + 1;
    }
    proof {
        assert(lv.subrange(0, n as int) =~= lv);
    }
    sum
}

} // verus!
