//! The seed-to-location pipeline: parses seed numbers and blank-line
//! separated translation tables, then reports the minimum reachable
//! location — for discrete seeds as unit intervals, and for `(start,
//! length)` seed pairs as whole ranges, through one and the same engine.

use vstd::prelude::*;
use crate::interval::range_vals;
use crate::interval_set::IntervalSet;
use crate::pipeline::{Pipeline, is_min_location};
use crate::table::{RangeRule, RangeTable};
use crate::text::{chars_of, lines_of, split_on, parse_u32, spec_lines, spec_split, spec_parse_u32};

verus! {

/// Why an input text was rejected at the parsing boundary.
#[derive(Clone, Copy, PartialEq, Eq, Structural, Debug)]
pub enum ParseError {
    /// The input has no first line to read seed numbers from.
    MissingSeedLine,
    /// A table line is not exactly three numbers, or declares a zero-length
    /// rule.
    InvalidRule,
}

/// The numeric tokens of a list of tokens, unparsable ones dropped.
pub open spec fn nums_of(tokens: Seq<Seq<char>>) -> Seq<u32>
    decreases tokens.len(),
{
    if tokens.len() == 0 {
        Seq::empty()
    } else {
        match spec_parse_u32(tokens.last()) {
            Some(v) => nums_of(tokens.drop_last()).push(v),
            None => nums_of(tokens.drop_last()),
        }
    }
}

/// The seed numbers declared on the first line, or `None` when the input
/// has no lines at all.
pub open spec fn spec_seeds(s: Seq<char>) -> Option<Seq<u32>> {
    if spec_lines(s).len() == 0 {
        None
    } else {
        Some(nums_of(spec_split(spec_lines(s)[0], ' ')))
    }
}

/// A whitespace character as `str::trim` treats it, over the usual ASCII set.
pub open spec fn is_space(c: char) -> bool {
    c == ' ' || c == '\t' || c == '\r' || c == '\u{b}' || c == '\u{c}'
}

/// A line that holds nothing but whitespace separates two tables.
pub open spec fn is_blank(line: Seq<char>) -> bool {
    forall|i: int| 0 <= i < line.len() ==> is_space(#[trigger] line[i])
}

/// One translation rule from one `dest src length` line; `None` when the
/// line does not hold exactly three numbers or declares a zero-length rule.
pub open spec fn spec_rule(line: Seq<char>) -> Option<RangeRule> {
    let nums = nums_of(spec_split(line, ' '));
    if nums.len() == 3 && nums[2] > 0 {
        Some(
            RangeRule {
                dest_start: nums[0] as u64,
                src_start: nums[1] as u64,
                length: nums[2] as u64,
            },
        )
    } else {
        None
    }
}

/// Folds the remaining lines into tables: a blank line closes the current
/// table and skips the following header line; every other line must be a
/// rule.
pub open spec fn tables_from(
    ls: Seq<Seq<char>>,
    skip_next: bool,
    cur: Seq<RangeRule>,
) -> Option<Seq<Seq<RangeRule>>>
    decreases ls.len(),
{
    if ls.len() == 0 {
        Some(seq![cur])
    } else if skip_next {
        tables_from(ls.drop_first(), false, cur)
    } else if is_blank(ls[0]) {
        match tables_from(ls.drop_first(), true, Seq::empty()) {
            Some(ts) => Some(seq![cur] + ts),
            None => None,
        }
    } else {
        match spec_rule(ls[0]) {
            Some(r) => tables_from(ls.drop_first(), false, cur.push(r)),
            None => None,
        }
    }
}

/// All translation tables of the input: everything after the first three
/// lines (seeds, blank, first header), in declaration order.
pub open spec fn spec_tables(s: Seq<char>) -> Option<Seq<Seq<RangeRule>>> {
    let ls = spec_lines(s);
    tables_from(
        if ls.len() >= 3 {
            ls.skip(3)
        } else {
            Seq::empty()
        },
        false,
        Seq::empty(),
    )
}

/// Discrete seeds as values: one per seed number.
pub open spec fn unit_vals(seeds: Seq<u32>) -> Seq<int> {
    seeds.map_values(|v: u32| v as int)
}

/// Ranged seeds as values: each `(start, length)` pair contributes the whole
/// interval `[start, start + length)`; a trailing unpaired number is ignored.
pub open spec fn pair_vals_from(seeds: Seq<u32>, i: int) -> Seq<int>
    decreases seeds.len() - i,
{
    if i < 0 || i + 1 >= seeds.len() {
        Seq::empty()
    } else {
        range_vals(seeds[i] as int, seeds[i] as int + seeds[i + 1] as int) + pair_vals_from(
            seeds,
            i + 2,
        )
    }
}

pub open spec fn pair_vals(seeds: Seq<u32>) -> Seq<int> {
    pair_vals_from(seeds, 0)
}

/// The views of a vector of tables, stage by stage.
pub open spec fn rules_views(ts: Seq<RangeTable>) -> Seq<Seq<RangeRule>> {
    ts.map_values(|t: RangeTable| t.rules@)
}

/// Reads the seed numbers from the first line.
pub fn parse_seeds(input: &str) -> (r: Result<Vec<u32>, ParseError>)
    ensures
        match r {
            Ok(v) => spec_seeds(input@) == Some(v@),
            Err(e) => spec_seeds(input@) is None && e == ParseError::MissingSeedLine,
        },
{
    let cs = chars_of(input);
    let ls = lines_of(&cs);
    if ls.len() == 0 {
        return Err(ParseError::MissingSeedLine);
    }
    let toks = split_on(&ls[0], ' ');
    proof {
        assert(crate::text::views(ls@)[0] == ls@[0]@);
    }
    let r = nums_of_tokens(&toks);
    Ok(r)
}

/// The numeric tokens among `toks`, in order, unparsable ones dropped.
fn nums_of_tokens(toks: &Vec<Vec<char>>) -> (r: Vec<u32>)
    ensures
        r@ == nums_of(crate::text::views(toks@)),
{
    let n = toks.len();
    let mut r: Vec<u32> = Vec::new();
    let mut i: usize = 0;
    proof {
        assert(crate::text::views(toks@).take(0) =~= Seq::<Seq<char>>::empty());
    }
    while i < n
        invariant
            0 <= i <= n,
            n == toks@.len(),
            r@ == nums_of(crate::text::views(toks@).take(i as int)),
        decreases n - i,
    {
        let ghost tv = crate::text::views(toks@);
        match parse_u32(&toks[i]) {
            Some(v) => {
                r.push(v);
            },
            None => {},
        }
        proof {
            assert(tv.take(i + 1).drop_last() =~= tv.take(i as int));
            assert(tv.take(i + 1).last() == toks@[i as int]@);
        }
        i = i + 1;
    }
    proof {
        assert(crate::text::views(toks@).take(n as int) =~= crate::text::views(toks@));
    }
    r
}

/// True iff the line holds nothing but whitespace.
fn is_blank_line(line: &Vec<char>) -> (r: bool)
    ensures
        r == is_blank(line@),
{
    let n = line.len();
    let mut i: usize = 0;
    while i < n
        invariant
            0 <= i <= n,
            n == line@.len(),
            forall|j: int| 0 <= j < i ==> is_space(#[trigger] line@[j]),
        decreases n - i,
    {
        let c = line[i];
        if !(c == ' ' || c == '\t' || c == '\r' || c == '\u{b}' || c == '\u{c}') {
            return false;
        }
        i = i + 1;
    }
    true
}

/// Reads one translation rule from a `dest src length` line.
pub fn parse_rule(line: &Vec<char>) -> (r: Result<RangeRule, ParseError>)
    ensures
        match r {
            Ok(rule) => spec_rule(line@) == Some(rule) && rule.wf(),
            Err(e) => spec_rule(line@) is None && e == ParseError::InvalidRule,
        },
{
    let toks = split_on(line, ' ');
    let nums = nums_of_tokens(&toks);
    if nums.len() == 3 && nums[2] > 0 {
        Ok(
            RangeRule {
                dest_start: nums[0] as u64,
                src_start: nums[1] as u64,
                length: nums[2] as u64,
            },
        )
    } else {
        Err(ParseError::InvalidRule)
    }
}

/// Reads every translation table that follows the seed line, its blank
/// separator and the first header line.
pub fn parse_tables(input: &str) -> (r: Result<Vec<RangeTable>, ParseError>)
    ensures
        match r {
            Ok(ts) => spec_tables(input@) == Some(rules_views(ts@)) && forall|i: int|
                0 <= i < ts@.len() ==> (#[trigger] ts@[i]).wf(),
            Err(e) => spec_tables(input@) is None && e == ParseError::InvalidRule,
        },
{
    let cs = chars_of(input);
    let ls = lines_of(&cs);
    let ghost tail = if crate::text::views(ls@).len() >= 3 {
        crate::text::views(ls@).skip(3)
    } else {
        Seq::<Seq<char>>::empty()
    };
    let mut built: Vec<RangeTable> = Vec::new();
    let mut cur: Vec<RangeRule> = Vec::new();
    let mut skip_next = false;
    let n = ls.len();
    let mut i: usize = 3;
    proof {
        if n < 3 {
            assert(tail =~= Seq::<Seq<char>>::empty());
        } else {
            assert(tail =~= crate::text::views(ls@).skip(3));
        }
        assert(rules_views(built@) =~= Seq::<Seq<RangeRule>>::empty());
        if n >= 3 {
            assert(tail.skip(0) =~= tail);
        }
    }
    while i < n
        invariant
            3 <= i <= n || (n < 3 && i == 3),
            n == ls@.len(),
            tail == (if crate::text::views(ls@).len() >= 3 {
                crate::text::views(ls@).skip(3)
            } else {
                Seq::<Seq<char>>::empty()
            }),
            n >= 3 ==> i - 3 <= tail.len(),
            forall|k: int| 0 <= k < built@.len() ==> (#[trigger] built@[k]).wf(),
            forall|k: int| 0 <= k < cur@.len() ==> (#[trigger] cur@[k]).wf(),
            n < 3 ==> built@.len() == 0 && cur@.len() == 0 && skip_next == false,
            n >= 3 ==> match tables_from(tail.skip(i - 3), skip_next, cur@) {
                Some(ts) => spec_tables(input@) == Some(rules_views(built@) + ts),
                None => spec_tables(input@) is None,
            },
        decreases n - i,
    {
        let ghost rem = tail.skip(i - 3);
        proof {
            assert(rem[0] == tail[i - 3]);
            assert(tail[i - 3] == crate::text::views(ls@)[i as int]);
            assert(rem.drop_first() =~= tail.skip(i - 3 + 1));
        }
        if skip_next {
            skip_next = false;
        } else if is_blank_line(&ls[i]) {
            let ghost old_built = built@;
            let ghost old_cur = cur@;
            let table = RangeTable::new(cur);
            built.push(table);
            cur = Vec::new();
            skip_next = true;
            proof {
                assert(rules_views(built@) =~= rules_views(old_built).push(old_cur));
                assert(cur@ =~= Seq::<RangeRule>::empty());
                match tables_from(tail.skip(i - 3 + 1), true, Seq::empty()) {
                    Some(ts) => {
                        assert(tables_from(rem, false, old_cur) == Some(seq![old_cur] + ts));
                        assert(rules_views(old_built) + (seq![old_cur] + ts) =~= rules_views(
                            built@,
                        ) + ts);
                    },
                    None => {},
                }
            }
        } else {
            match parse_rule(&ls[i]) {
                Ok(rule) => {
                    let ghost old_cur = cur@;
                    cur.push(rule);
                    proof {
                        assert(tables_from(rem, false, old_cur) == tables_from(
                            tail.skip(i - 3 + 1),
                            false,
                            old_cur.push(rule),
                        ));
                    }
                },
                Err(e) => {
                    proof {
                        assert(tables_from(rem, false, cur@) is None);
                    }
                    return Err(e);
                },
            }
        }
        i = i + 1;
    }
    proof {
        if n >= 3 {
            assert(tail.skip(i - 3) =~= Seq::<Seq<char>>::empty());
        } else {
            assert(crate::text::views(ls@).len() < 3);
            assert(spec_tables(input@) == tables_from(
                Seq::<Seq<char>>::empty(),
                false,
                Seq::empty(),
            ));
            assert(cur@ =~= Seq::<RangeRule>::empty());
            assert(spec_tables(input@) == Some(rules_views(built@) + seq![cur@]));
        }
        assert(tables_from(Seq::<Seq<char>>::empty(), skip_next, cur@) == Some(seq![cur@]));
    }
    let ghost final_cur = cur@;
    let ghost old_built = built@;
    let table = RangeTable::new(cur);
    built.push(table);
    proof {
        assert(rules_views(built@) =~= rules_views(old_built).push(final_cur));
        assert(rules_views(old_built) + seq![final_cur] =~= rules_views(built@));
    }
    Ok(built)
}

/// The minimum location over the discrete seeds, each run through every
/// table in order as a unit interval.
pub fn part_one(input: &str) -> (r: u32)
    requires
        spec_seeds(input@) is Some,
        spec_seeds(input@)->Some_0.len() > 0,
        spec_tables(input@) is Some,
        forall|m: int|
            is_min_location(
                spec_tables(input@)->Some_0,
                unit_vals(spec_seeds(input@)->Some_0),
                m,
            ) ==> m <= u32::MAX,
    ensures
        is_min_location(
            spec_tables(input@)->Some_0,
            unit_vals(spec_seeds(input@)->Some_0),
            r as int,
        ),
{
    let seeds = match parse_seeds(input) {
        Ok(v) => v,
        Err(_) => {
            proof {
                assert(false);
            }
            return 0;
        },
    };
    let tables = match parse_tables(input) {
        Ok(ts) => ts,
        Err(_) => {
            proof {
                assert(false);
            }
            return 0;
        },
    };
    let mut set = IntervalSet::new();
    let n = seeds.len();
    let mut i: usize = 0;
    proof {
        assert(unit_vals(seeds@.take(0)) =~= Seq::<int>::empty());
    }
    while i < n
        invariant
            0 <= i <= n,
            n == seeds@.len(),
            set.wf(),
            set.values() == unit_vals(seeds@.take(i as int)),
        decreases n - i,
    {
        let v = seeds[i];
        set.push_range(v as u64, v as u64 + 1);
        proof {
            assert(range_vals(v as int, v as int + 1) =~= seq![v as int]);
            assert(unit_vals(seeds@.take(i + 1)) =~= unit_vals(seeds@.take(i as int)).push(
                v as int,
            ));
        }
        i = i + 1;
    }
    proof {
        assert(seeds@.take(n as int) =~= seeds@);
    }
    let pipeline = Pipeline::new(tables);
    proof {
        assert(pipeline.tables_view() =~= rules_views(pipeline.tables@));
    }
    match pipeline.solve(&set) {
        Some(m) => {
            proof {
                assert(is_min_location(
                    spec_tables(input@)->Some_0,
                    unit_vals(spec_seeds(input@)->Some_0),
                    m as int,
                ));
            }
            m as u32
        },
        None => {
            proof {
                assert(unit_vals(seeds@).len() == seeds@.len());
                assert(false);
            }
            0
        },
    }
}

/// The minimum location over the ranged seeds: each `(start, length)` pair
/// declares the whole interval `[start, start + length)`.
pub fn part_two(input: &str) -> (r: u32)
    requires
        spec_seeds(input@) is Some,
        spec_tables(input@) is Some,
        pair_vals(spec_seeds(input@)->Some_0).len() > 0,
        forall|m: int|
            is_min_location(
                spec_tables(input@)->Some_0,
                pair_vals(spec_seeds(input@)->Some_0),
                m,
            ) ==> m <= u32::MAX,
    ensures
        is_min_location(
            spec_tables(input@)->Some_0,
            pair_vals(spec_seeds(input@)->Some_0),
            r as int,
        ),
{
    let seeds = match parse_seeds(input) {
        Ok(v) => v,
        Err(_) => {
            proof {
                assert(false);
            }
            return 0;
        },
    };
    let tables = match parse_tables(input) {
        Ok(ts) => ts,
        Err(_) => {
            proof {
                assert(false);
            }
            return 0;
        },
    };
    let mut set = IntervalSet::new();
    let n = seeds.len();
    let mut i: usize = 0;
    proof {
        assert(set.values() + pair_vals_from(seeds@, 0) =~= pair_vals(seeds@));
    }
    while i + 1 < n
        invariant
            0 <= i <= n + 1,
            n == seeds@.len(),
            set.wf(),
            i % 2 == 0,
            set.values() + pair_vals_from(seeds@, i as int) == pair_vals(seeds@),
        decreases n - i,
    {
        let start = seeds[i];
        let len = seeds[i + 1];
        let ghost old_vals = set.values();
        set.push_range(start as u64, start as u64 + len as u64);
        proof {
            assert(pair_vals_from(seeds@, i as int) == range_vals(
                start as int,
                start as int + len as int,
            ) + pair_vals_from(seeds@, i + 2));
            assert(set.values() + pair_vals_from(seeds@, i + 2) =~= old_vals + pair_vals_from(
                seeds@,
                i as int,
            ));
        }
        i = i + 2;
    }
    proof {
        assert(pair_vals_from(seeds@, i as int) =~= Seq::<int>::empty());
        assert(set.values() =~= set.values() + pair_vals_from(seeds@, i as int));
        assert(set.values() == pair_vals(seeds@));
    }
    let pipeline = Pipeline::new(tables);
    proof {
        assert(pipeline.tables_view() =~= rules_views(pipeline.tables@));
    }
    match pipeline.solve(&set) {
        Some(m) => m as u32,
        None => {
            proof {
                assert(false);
            }
            0
        },
    }
}

} // verus!
