//! The holiday hash: each comma-separated step is folded character by
//! character into a value below 256, and the step values are summed.

use vstd::prelude::*;
use crate::text::{chars_of, split_on, spec_split};

verus! {

/// The running hash of a string: fold each character's code into the
/// current value, times seventeen, modulo 256.
pub open spec fn spec_hash(s: Seq<char>) -> int
    decreases s.len(),
{
    if s.len() == 0 {
        0
    } else {
        ((spec_hash(s.drop_last()) + (s.last() as u32) as int) * 17) % 256
    }
}

pub proof fn lemma_hash_bounded(s: Seq<char>)
    ensures
        0 <= spec_hash(s) < 256,
    decreases s.len(),
{
    if s.len() > 0 {
        lemma_hash_bounded(s.drop_last());
    }
}

/// The sum of the hashes of a list of steps.
pub open spec fn hash_sum(steps: Seq<Seq<char>>) -> int
    decreases steps.len(),
{
    if steps.len() == 0 {
        0
    } else {
        hash_sum(steps.drop_last()) + spec_hash(steps.last())
    }
}

pub proof fn lemma_hash_sum_prefix(steps: Seq<Seq<char>>, k: int)
    requires
        0 <= k <= steps.len(),
    ensures
        hash_sum(steps.subrange(0, k)) <= hash_sum(steps),
    decreases steps.len() - k,
{
    if k < steps.len() {
        lemma_hash_sum_prefix(steps, k + 1);
        let p = steps.subrange(0, k + 1);
        assert(p.drop_last() =~= steps.subrange(0, k));
        lemma_hash_bounded(steps[k]);
    } else {
        assert(steps.subrange(0, k) =~= steps);
    }
}

/// The hash of one step.
pub fn hash_string(s: &str) -> (r: u32)
    ensures
        r as int == spec_hash(s@),
        r < 256,
{
    let cs = chars_of(s);
    hash_chars(&cs)
}

fn hash_chars(cs: &Vec<char>) -> (r: u32)
    ensures
        r as int == spec_hash(cs@),
        r < 256,
{
    let n = cs.len();
    let mut cur: u32 = 0;
    let mut i: usize = 0;
    proof {
        assert(cs@.take(0) =~= Seq::<char>::empty());
    }
    while i < n
        invariant
            0 <= i <= n,
            n == cs@.len(),
            cur as int == spec_hash(cs@.take(i as int)),
            cur < 256,
        decreases n - i,
    {
        let c = cs[i];
        proof {
            assert(cs@.take(i + 1).drop_last() =~= cs@.take(i as int));
            assert(cs@.take(i + 1).last() == c);
        }
        let wide: u64 = ((cur as u64 + c as u32 as u64) % 256) * 17 % 256;
        proof {
            let old_cur = spec_hash(cs@.take(i as int));
            let cv = (c as u32) as int;
            assert(((old_cur + cv) % 256 * 17) % 256 == ((old_cur + cv) * 17) % 256) by {
                vstd::arithmetic::div_mod::lemma_mul_mod_noop_left(old_cur + cv, 17, 256);
            }
        }
        cur = wide as u32;
        i = i + 1;
    }
    proof {
        assert(cs@.take(n as int) =~= cs@);
    }
    cur
}

/// The sum of the hash of every comma-separated step.
pub fn part_one(input: &str) -> (r: u32)
    requires
        hash_sum(spec_split(input@, ',')) <= u32::MAX,
    ensures
        r as int == hash_sum(spec_split(input@, ',')),
{
    let cs = chars_of(input);
    let steps = split_on(&cs, ',');
    let ghost sv = crate::text::views(steps@);
    let n = steps.len();
    let mut sum: u32 = 0;
    let mut i: usize = 0;
    proof {
        assert(sv.subrange(0, 0) =~= Seq::<Seq<char>>::empty());
    }
    while i < n
        invariant
            0 <= i <= n,
            n == sv.len(),
            n == steps@.len(),
            sv == crate::text::views(steps@),
            hash_sum(sv) <= u32::MAX,
            sum as int == hash_sum(sv.subrange(0, i as int)),
        decreases n - i,
    {
        let h = hash_chars(&steps[i]);
        proof {
            assert(sv[i as int] == steps@[i as int]@);
            lemma_hash_sum_prefix(sv, i + 1);
            assert(sv.subrange(0, i + 1).drop_last() =~= sv.subrange(0, i as int));
            lemma_hash_bounded(sv[i as int]);
            lemma_hash_sum_prefix_nonneg(sv, i as int);
        }
        sum = sum + h;
        i = i + 1;
    }
    proof {
        assert(sv.subrange(0, n as int) =~= sv);
    }
    sum
}

pub proof fn lemma_hash_sum_prefix_nonneg(steps: Seq<Seq<char>>, k: int)
    requires
        0 <= k <= steps.len(),
    ensures
        hash_sum(steps.subrange(0, k)) >= 0,
    decreases k,
{
    if k > 0 {
        lemma_hash_sum_prefix_nonneg(steps, k - 1);
        let p = steps.subrange(0, k);
        assert(p.drop_last() =~= steps.subrange(0, k - 1));
        lemma_hash_bounded(steps[k - 1]);
    }
}

/// This puzzle's second half was never taken up; it reports nothing.
pub fn part_two(input: &str) -> (r: u32)
    ensures
        r == 0,
{
    let _ = input;
    0
}

} // verus!
