//! Cube games: each line shows handfuls of red, green and blue cubes. The
//! first part sums the game numbers of lines whose largest counts fit the
//! bag; the second sums the product of each line's largest counts.

use vstd::prelude::*;
use crate::text::{
    chars_of,
    lines_of,
    runs_of,
    slice_chars,
    parse_u32,
    prefix_matches,
    spec_lines,
    spec_runs,
    digits_val,
    lemma_runs_all_digits,
};

verus! {

/// The word `w` stands at position `pos` of the line.
pub open spec fn word_at(line: Seq<char>, pos: int, w: Seq<char>) -> bool {
    &&& 0 <= pos
    &&& pos + w.len() <= line.len()
    &&& line.subrange(pos, pos + w.len()) == w
}

/// A digit run followed by a space and the colour word names a count of
/// that colour.
pub open spec fn run_names_color(line: Seq<char>, r: (int, int), w: Seq<char>) -> bool {
    word_at(line, r.1, seq![' '] + w)
}

/// The counts of one colour on a line, in order: the values of the digit
/// runs followed by ` <colour>`, unparsable (oversized) ones dropped.
pub open spec fn color_counts(line: Seq<char>, runs: Seq<(int, int)>, w: Seq<char>) -> Seq<int>
    decreases runs.len(),
{
    if runs.len() == 0 {
        Seq::empty()
    } else {
        let rest = color_counts(line, runs.drop_last(), w);
        let r = runs.last();
        if run_names_color(line, r, w) && digits_val(line.subrange(r.0, r.1)) <= u32::MAX {
            rest.push(digits_val(line.subrange(r.0, r.1)))
        } else {
            rest
        }
    }
}

/// The largest of a list of counts; `None` when the list is empty.
pub open spec fn max_of(vals: Seq<int>) -> Option<int>
    decreases vals.len(),
{
    if vals.len() == 0 {
        None
    } else {
        match max_of(vals.drop_last()) {
            None => Some(vals.last()),
            Some(m) => Some(
                if vals.last() > m {
                    vals.last()
                } else {
                    m
                },
            ),
        }
    }
}

/// The largest count of a colour on a line.
pub open spec fn color_max(line: Seq<char>, w: Seq<char>) -> Option<int> {
    max_of(color_counts(line, spec_runs(line), w))
}

/// The game number: the value of the first digit run that follows `Game `
/// and is itself followed by `:`; `None` when no run qualifies or the
/// number does not parse.
pub open spec fn game_run_at(line: Seq<char>, r: (int, int)) -> bool {
    &&& word_at(line, r.0 - 5, seq!['G', 'a', 'm', 'e', ' '])
    &&& r.1 < line.len()
    &&& line[r.1] == ':'
}

pub open spec fn first_game_run(line: Seq<char>, runs: Seq<(int, int)>) -> Option<(int, int)>
    decreases runs.len(),
{
    if runs.len() == 0 {
        None
    } else if game_run_at(line, runs.first()) {
        Some(runs.first())
    } else {
        first_game_run(line, runs.drop_first())
    }
}

pub open spec fn game_num(line: Seq<char>) -> Option<int> {
    match first_game_run(line, spec_runs(line)) {
        None => None,
        Some(r) => {
            if digits_val(line.subrange(r.0, r.1)) <= u32::MAX {
                Some(digits_val(line.subrange(r.0, r.1)))
            } else {
                None
            }
        },
    }
}

/// A line qualifies when each colour's largest count fits the bag.
pub open spec fn line_possible(line: Seq<char>) -> bool {
    &&& color_max(line, seq!['r', 'e', 'd'])->Some_0 <= 12
    &&& color_max(line, seq!['g', 'r', 'e', 'e', 'n'])->Some_0 <= 13
    &&& color_max(line, seq!['b', 'l', 'u', 'e'])->Some_0 <= 14
}

/// The sum of the qualifying games' numbers.
pub open spec fn possible_sum(ls: Seq<Seq<char>>) -> int
    decreases ls.len(),
{
    if ls.len() == 0 {
        0
    } else {
        possible_sum(ls.drop_last()) + (if line_possible(ls.last()) {
            game_num(ls.last())->Some_0
        } else {
            0int
        })
    }
}

/// The sum of each line's power: the product of its three largest counts.
pub open spec fn line_power(line: Seq<char>) -> int {
    color_max(line, seq!['r', 'e', 'd'])->Some_0 * color_max(
        line,
        seq!['g', 'r', 'e', 'e', 'n'],
    )->Some_0 * color_max(line, seq!['b', 'l', 'u', 'e'])->Some_0
}

pub open spec fn power_sum(ls: Seq<Seq<char>>) -> int
    decreases ls.len(),
{
    if ls.len() == 0 {
        0
    } else {
        power_sum(ls.drop_last()) + line_power(ls.last())
    }
}

/// The largest count of one colour on the line.
fn scan_color_max(line: &Vec<char>, w: &Vec<char>) -> (r: Option<u32>)
    ensures
        match r {
            Some(m) => color_max(line@, w@) == Some(m as int),
            None => color_max(line@, w@) is None,
        },
{
    let runs = runs_of(line);
    let rn = runs.len();
    let mut best: Option<u32> = None;
    let mut i: usize = 0;
    proof {
        assert(spec_runs(line@).take(0) =~= Seq::<(int, int)>::empty());
    }
    while i < rn
        invariant
            0 <= i <= rn,
            rn == runs@.len(),
            rn == spec_runs(line@).len(),
            forall|k: int|
                0 <= k < runs@.len() ==> (#[trigger] runs@[k]).0 as int == spec_runs(line@)[k].0
                    && runs@[k].1 as int == spec_runs(line@)[k].1,
            forall|k: int|
                0 <= k < runs@.len() ==> 0 <= (#[trigger] runs@[k]).0 < runs@[k].1
                    <= line@.len(),
            match best {
                Some(m) => max_of(color_counts(line@, spec_runs(line@).take(i as int), w@))
                    == Some(m as int),
                None => max_of(color_counts(line@, spec_runs(line@).take(i as int), w@))
                    is None,
            },
        decreases rn - i,
    {
        let (a, b) = runs[i];
        let ghost rr = spec_runs(line@)[i as int];
        proof {
            assert(spec_runs(line@).take(i + 1).drop_last() =~= spec_runs(line@).take(i as int));
            assert(spec_runs(line@).take(i + 1).last() == rr);
        }
        let n = line.len();
        let matches = if b < n && line[b] == ' ' && n - b - 1 >= w.len() {
            prefix_matches(line, b + 1, w)
        } else {
            false
        };
        proof {
            let sw = seq![' '] + w@;
            if matches {
                assert(line@.subrange(b as int, b + 1 + w@.len() as int) =~= sw);
                assert(run_names_color(line@, rr, w@));
            } else {
                if run_names_color(line@, rr, w@) {
                    assert(line@.subrange(rr.1, rr.1 + sw.len() as int)[0] == ' ');
                    assert(line@[b as int] == ' ');
                    assert(line@.subrange(b + 1, b + 1 + w@.len() as int) =~= line@.subrange(
                        rr.1,
                        rr.1 + sw.len() as int,
                    ).subrange(1, sw.len() as int));
                    assert(line@.subrange(b + 1, b + 1 + w@.len() as int) =~= w@);
                    assert(false);
                }
            }
        }
        if matches {
            let piece = slice_chars(line, a, b);
            proof {
                lemma_runs_all_digits(line@, i as int);
                assert(!crate::text::is_digit('+'));
                assert(piece@[0] != '+');
                assert(crate::text::unsigned_body(piece@) =~= piece@);
                crate::text::lemma_digits_val_nonneg(piece@);
            }
            let ghost counts_i = color_counts(line@, spec_runs(line@).take(i as int), w@);
            let ghost dval = digits_val(line@.subrange(rr.0, rr.1));
            match parse_u32(&piece) {
                Some(v) => {
                    proof {
                        assert(v as int == dval);
                        assert(color_counts(line@, spec_runs(line@).take(i + 1), w@)
                            == counts_i.push(dval));
                        assert(counts_i.push(dval).drop_last() =~= counts_i);
                        assert(counts_i.push(dval).last() == dval);
                    }
                    best = match best {
                        Some(m) => Some(
                            if v > m {
                                v
                            } else {
                                m
                            },
                        ),
                        None => Some(v),
                    };
                },
                None => {
                    proof {
                        assert(dval > u32::MAX);
                        assert(color_counts(line@, spec_runs(line@).take(i + 1), w@)
                            == counts_i);
                    }
                },
            }
        } else {
            proof {
                assert(color_counts(line@, spec_runs(line@).take(i + 1), w@) == color_counts(
                    line@,
                    spec_runs(line@).take(i as int),
                    w@,
                ));
            }
        }
        i = i + 1;
    }
    proof {
        assert(spec_runs(line@).take(rn as int) =~= spec_runs(line@));
    }
    best
}

/// The game number declared on the line.
fn scan_game_num(line: &Vec<char>) -> (r: Option<u32>)
    ensures
        match r {
            Some(v) => game_num(line@) == Some(v as int),
            None => game_num(line@) is None,
        },
{
    let runs = runs_of(line);
    let rn = runs.len();
    let mut i: usize = 0;
    proof {
        assert(spec_runs(line@).skip(0) =~= spec_runs(line@));
    }
    while i < rn
        invariant
            0 <= i <= rn,
            rn == runs@.len(),
            rn == spec_runs(line@).len(),
            forall|k: int|
                0 <= k < runs@.len() ==> (#[trigger] runs@[k]).0 as int == spec_runs(line@)[k].0
                    && runs@[k].1 as int == spec_runs(line@)[k].1,
            forall|k: int|
                0 <= k < runs@.len() ==> 0 <= (#[trigger] runs@[k]).0 < runs@[k].1
                    <= line@.len(),
            first_game_run(line@, spec_runs(line@)) == first_game_run(
                line@,
                spec_runs(line@).skip(i as int),
            ),
            forall|k: int|
                0 <= k < i ==> !game_run_at(line@, #[trigger] spec_runs(line@)[k]),
        decreases rn - i,
    {
        let (a, b) = runs[i];
        let ghost rr = spec_runs(line@)[i as int];
        let n = line.len();
        let game_word_ok = if a >= 5 {
            let mut gw: Vec<char> = Vec::new();
            gw.push('G');
            gw.push('a');
            gw.push('m');
            gw.push('e');
            gw.push(' ');
            proof {
                assert(gw@ =~= seq!['G', 'a', 'm', 'e', ' ']);
            }
            prefix_matches(line, a - 5, &gw)
        } else {
            false
        };
        let matches = game_word_ok && b < n && line[b] == ':';
        proof {
            if matches {
                assert(word_at(line@, rr.0 - 5, seq!['G', 'a', 'm', 'e', ' ']));
                assert(game_run_at(line@, rr));
            } else {
                if game_run_at(line@, rr) {
                    assert(rr.0 - 5 >= 0);
                    assert(line@.subrange(rr.0 - 5, rr.0) == seq!['G', 'a', 'm', 'e', ' ']);
                    assert(false);
                }
            }
            assert(spec_runs(line@).skip(i as int).first() == rr);
            assert(spec_runs(line@).skip(i as int).drop_first() =~= spec_runs(line@).skip(i + 1));
        }
        if matches {
            proof {
                assert(first_game_run(line@, spec_runs(line@)) == Some(rr));
            }
            let piece = slice_chars(line, a, b);
            proof {
                lemma_runs_all_digits(line@, i as int);
                assert(!crate::text::is_digit('+'));
                assert(piece@[0] != '+');
                assert(crate::text::unsigned_body(piece@) =~= piece@);
                crate::text::lemma_digits_val_nonneg(piece@);
            }
            return parse_u32(&piece);
        }
        i = i + 1;
    }
    proof {
        assert(spec_runs(line@).skip(rn as int) =~= Seq::<(int, int)>::empty());
    }
    None
}

/// Every line has all three colour maxima; qualifying lines have a game
/// number; and the sums and powers fit the result type.
pub open spec fn day_ok(ls: Seq<Seq<char>>) -> bool {
    &&& forall|i: int|
        0 <= i < ls.len() ==> color_max(#[trigger] ls[i], seq!['r', 'e', 'd']) is Some
            && color_max(ls[i], seq!['g', 'r', 'e', 'e', 'n']) is Some && color_max(
            ls[i],
            seq!['b', 'l', 'u', 'e'],
        ) is Some
    &&& forall|i: int|
        0 <= i < ls.len() && line_possible(#[trigger] ls[i]) ==> game_num(ls[i]) is Some
            && game_num(ls[i])->Some_0 <= u32::MAX
    &&& forall|k: int|
        0 <= k <= ls.len() ==> 0 <= #[trigger] possible_sum(ls.take(k)) <= u32::MAX
    &&& forall|k: int| 0 <= k <= ls.len() ==> 0 <= #[trigger] power_sum(ls.take(k)) <= u32::MAX
    &&& forall|i: int| 0 <= i < ls.len() ==> 0 <= line_power(#[trigger] ls[i]) <= u32::MAX
}

/// The sum of the game numbers of the lines whose cubes fit the bag.
pub fn part_one(input: &str) -> (r: u32)
    requires
        day_ok(spec_lines(input@)),
    ensures
        r as int == possible_sum(spec_lines(input@)),
{
    let cs = chars_of(input);
    let ls = lines_of(&cs);
    let ghost lv = crate::text::views(ls@);
    let n = ls.len();
    let mut sum: u32 = 0;
    let mut i: usize = 0;
    proof {
        assert(lv.take(0) =~= Seq::<Seq<char>>::empty());
    }
    while i < n
        invariant
            0 <= i <= n,
            n == ls@.len(),
            n == lv.len(),
            lv == crate::text::views(ls@),
            day_ok(lv),
            sum as int == possible_sum(lv.take(i as int)),
        decreases n - i,
    {
        proof {
            assert(lv[i as int] == ls@[i as int]@);
            assert(lv.take(i + 1).drop_last() =~= lv.take(i as int));
            assert(lv.take(i + 1).last() == lv[i as int]);
        }
        let mut red: Vec<char> = Vec::new();
        red.push('r');
        red.push('e');
        red.push('d');
        let mut green: Vec<char> = Vec::new();
        green.push('g');
        green.push('r');
        green.push('e');
        green.push('e');
        green.push('n');
        let mut blue: Vec<char> = Vec::new();
        blue.push('b');
        blue.push('l');
        blue.push('u');
        blue.push('e');
        proof {
            assert(red@ =~= seq!['r', 'e', 'd']);
            assert(green@ =~= seq!['g', 'r', 'e', 'e', 'n']);
            assert(blue@ =~= seq!['b', 'l', 'u', 'e']);
        }
        let max_red = scan_color_max(&ls[i], &red);
        let max_green = scan_color_max(&ls[i], &green);
        let max_blue = scan_color_max(&ls[i], &blue);
        let (mr, mg, mb) = match (max_red, max_green, max_blue) {
            (Some(r), Some(g), Some(b)) => (r, g, b),
            _ => {
                proof {
                    assert(false);
                }
                (0, 0, 0)
            },
        };
        if mr <= 12 && mg <= 13 && mb <= 14 {
            proof {
                assert(line_possible(lv[i as int]));
            }
            let num = match scan_game_num(&ls[i]) {
                Some(v) => v,
                None => {
                    proof {
                        assert(false);
                    }
                    0
                },
            };
            proof {
                assert(possible_sum(lv.take(i + 1)) == possible_sum(lv.take(i as int))
                    + game_num(lv[i as int])->Some_0);
            }
            sum = sum + num;
        } else {
            proof {
                assert(!line_possible(lv[i as int]));
            }
        }
        i = i + 1;
    }
    proof {
        assert(lv.take(n as int) =~= lv);
    }
    sum
}

/// The sum of every line's power.
pub fn part_two(input: &str) -> (r: u32)
    requires
        day_ok(spec_lines(input@)),
    ensures
        r as int == power_sum(spec_lines(input@)),
{
    let cs = chars_of(input);
    let ls = lines_of(&cs);
    let ghost lv = crate::text::views(ls@);
    let n = ls.len();
    let mut sum: u32 = 0;
    let mut i: usize = 0;
    proof {
        assert(lv.take(0) =~= Seq::<Seq<char>>::empty());
    }
    while i < n
        invariant
            0 <= i <= n,
            n == ls@.len(),
            n == lv.len(),
            lv == crate::text::views(ls@),
            day_ok(lv),
            sum as int == power_sum(lv.take(i as int)),
        decreases n - i,
    {
        proof {
            assert(lv[i as int] == ls@[i as int]@);
            assert(lv.take(i + 1).drop_last() =~= lv.take(i as int));
            assert(lv.take(i + 1).last() == lv[i as int]);
        }
        let mut red: Vec<char> = Vec::new();
        red.push('r');
        red.push('e');
        red.push('d');
        let mut green: Vec<char> = Vec::new();
        green.push('g');
        green.push('r');
        green.push('e');
        green.push('e');
        green.push('n');
        let mut blue: Vec<char> = Vec::new();
        blue.push('b');
        blue.push('l');
        blue.push('u');
        blue.push('e');
        proof {
            assert(red@ =~= seq!['r', 'e', 'd']);
            assert(green@ =~= seq!['g', 'r', 'e', 'e', 'n']);
            assert(blue@ =~= seq!['b', 'l', 'u', 'e']);
        }
        let max_red = scan_color_max(&ls[i], &red);
        let max_green = scan_color_max(&ls[i], &green);
        let max_blue = scan_color_max(&ls[i], &blue);
        let (mr, mg, mb) = match (max_red, max_green, max_blue) {
            (Some(r), Some(g), Some(b)) => (r, g, b),
            _ => {
                proof {
                    assert(false);
                }
                (0, 0, 0)
            },
        };
        proof {
            assert(line_power(lv[i as int]) == mr as int * mg as int * mb as int);
            assert(0 <= line_power(lv[i as int]) <= u32::MAX);
            assert(power_sum(lv.take(i + 1)) == power_sum(lv.take(i as int)) + line_power(
                lv[i as int],
            ));
            assert(0 <= power_sum(lv.take(i + 1)) <= u32::MAX);
            assert(0 <= power_sum(lv.take(i as int)));
        }
        proof {
            assert((mr as int) * (mg as int) <= (u32::MAX as int) * (u32::MAX as int))
                by (nonlinear_arith)
                requires
                    0 <= mr as int <= u32::MAX as int,
                    0 <= mg as int <= u32::MAX as int,
            ;
            assert((u32::MAX as int) * (u32::MAX as int) <= u64::MAX as int);
            assert((mr as int) * (mg as int) >= 0) by (nonlinear_arith)
                requires
                    0 <= mr as int,
                    0 <= mg as int,
            ;
        }
        let wide: u64 = (mr as u64) * (mg as u64);
        proof {
            assert((wide as int) * (mb as int) == line_power(lv[i as int]));
        }
        let power: u64 = wide * (mb as u64);
        sum = sum + (power as u32);
        i = i + 1;
    }
    proof {
        assert(lv.take(n as int) =~= lv);
    }
    sum
}

} // verus!
