//! Toy boat races: charging for `c` time units in a race of `time` units
//! travels `c * (time - c)`; count the charge times that beat the record,
//! and multiply the counts over all races.

use vstd::prelude::*;
use crate::text::{chars_of, lines_of, runs_of, parse_u64, slice_chars, spec_lines, spec_runs, digits_val, is_digit, lemma_runs_all_digits};

verus! {

/// Charging `c` units wins a race of `time` units against `record`.
pub open spec fn spec_winning(time: int, record: int, c: int) -> bool {
    c * (time - c) > record
}

/// How many charge times in `[1, k]` win.
pub open spec fn wins_up_to(time: int, record: int, k: int) -> int
    decreases k,
{
    if k <= 0 {
        0
    } else {
        wins_up_to(time, record, k - 1) + (if spec_winning(time, record, k) {
            1int
        } else {
            0int
        })
    }
}

/// The number of winning charge times of a race.
pub open spec fn spec_wins(time: int, record: int) -> int {
    wins_up_to(time, record, time - 1)
}

/// Winning charge times form one contiguous window: anything between two
/// winners wins.
pub proof fn lemma_winning_window(time: int, record: int, a: int, b: int, c: int)
    requires
        record >= 0,
        a <= c <= b,
        spec_winning(time, record, a),
        spec_winning(time, record, b),
    ensures
        spec_winning(time, record, c),
{
    if time - a - c >= 0 {
        assert(c * (time - c) - a * (time - a) == (c - a) * (time - a - c)) by (nonlinear_arith);
        assert((c - a) * (time - a - c) >= 0) by (nonlinear_arith)
            requires
                c - a >= 0,
                time - a - c >= 0,
        ;
    } else {
        assert(c * (time - c) - b * (time - b) == (b - c) * (b + c - time)) by (nonlinear_arith);
        assert((b - c) * (b + c - time) >= 0) by (nonlinear_arith)
            requires
                b - c >= 0,
                b + c - time > 0,
        ;
    }
}

/// Between `lo` and `hi` everything wins, outside nothing does: the count
/// over `[1, k]` is the size of the window's part below `k`.
pub proof fn lemma_count_window(time: int, record: int, lo: int, hi: int, k: int)
    requires
        1 <= lo <= hi <= time - 1,
        forall|c: int| 1 <= c <= time - 1 ==> (spec_winning(time, record, c) <==> lo <= c <= hi),
        0 <= k <= time - 1,
    ensures
        wins_up_to(time, record, k) == if k < lo {
            0
        } else if k <= hi {
            k - lo + 1
        } else {
            hi - lo + 1
        },
    decreases k,
{
    if k > 0 {
        lemma_count_window(time, record, lo, hi, k - 1);
    }
}

/// One race: how long it lasts and the record distance to beat.
pub struct Race {
    pub time: u64,
    pub record: u64,
}

impl Race {
    pub fn new(time: u64, record: u64) -> (r: Race)
        ensures
            r == (Race { time, record }),
    {
        Race { time, record }
    }

    /// Whether charging for `charging` units beats the record.
    pub fn winning(&self, charging: u64) -> (r: bool)
        requires
            charging <= self.time,
        ensures
            r == spec_winning(self.time as int, self.record as int, charging as int),
    {
        let rest = self.time - charging;
        proof {
            assert((charging as u128) * (rest as u128) <= (u64::MAX as u128) * (
            u64::MAX as u128)) by (nonlinear_arith)
                requires
                    0 <= charging as u128 <= u64::MAX as u128,
                    0 <= rest as u128 <= u64::MAX as u128,
            ;
        }
        let travelled: u128 = (charging as u128) * (rest as u128);
        travelled > self.record as u128
    }

    /// The number of winning charge times, found by moving the two window
    /// ends inward until both win.
    pub fn calculate_wins(&self) -> (r: u32)
        requires
            self.time >= 2,
            self.time <= 0x1_0000_0000,
            exists|c: int|
                1 <= c <= self.time - 1 && spec_winning(
                    self.time as int,
                    self.record as int,
                    c,
                ),
        ensures
            r as int == spec_wins(self.time as int, self.record as int),
    {
        let ghost c0 = choose|c: int|
            1 <= c <= self.time - 1 && spec_winning(self.time as int, self.record as int, c);
        let mut fst: u64 = 1;
        let mut snd: u64 = self.time - 1;
        loop
            invariant
                1 <= fst <= c0 <= snd <= self.time - 1,
                self.time >= 2,
                self.time <= 0x1_0000_0000,
                spec_winning(self.time as int, self.record as int, c0),
                forall|c: int|
                    1 <= c < fst ==> !spec_winning(self.time as int, self.record as int, c),
                forall|c: int|
                    snd < c <= self.time - 1 ==> !spec_winning(
                        self.time as int,
                        self.record as int,
                        c,
                    ),
            ensures
                1 <= fst <= snd <= self.time - 1,
                forall|c: int|
                    1 <= c <= self.time - 1 ==> (spec_winning(
                        self.time as int,
                        self.record as int,
                        c,
                    ) <==> fst <= c <= snd),
            decreases snd - fst,
        {
            let fst_winning = self.winning(fst);
            let snd_winning = self.winning(snd);
            if fst_winning && snd_winning {
                proof {
                    assert forall|c: int| 1 <= c <= self.time - 1 implies (spec_winning(
                        self.time as int,
                        self.record as int,
                        c,
                    ) <==> fst <= c <= snd) by {
                        if fst <= c <= snd {
                            lemma_winning_window(
                                self.time as int,
                                self.record as int,
                                fst as int,
                                snd as int,
                                c,
                            );
                        }
                    }
                }
                break;
            }
            if !fst_winning {
                proof {
                    assert(fst < c0);
                }
                fst = fst + 1;
            }
            if !snd_winning {
                proof {
                    assert(c0 < snd);
                }
                snd = snd - 1;
            }
        }
        proof {
            lemma_count_window(
                self.time as int,
                self.record as int,
                fst as int,
                snd as int,
                self.time as int - 1,
            );
        }
        (snd - fst + 1) as u32
    }
}

/// The numbers on a line, read from its maximal digit runs; `None` when one
/// of them does not fit the unsigned 64-bit domain.
pub open spec fn line_nums(s: Seq<char>) -> Option<Seq<u64>>
    decreases spec_runs(s).len(),
{
    nums_of_runs(s, spec_runs(s))
}

pub open spec fn nums_of_runs(s: Seq<char>, runs: Seq<(int, int)>) -> Option<Seq<u64>>
    decreases runs.len(),
{
    if runs.len() == 0 {
        Some(Seq::empty())
    } else {
        let v = digits_val(s.subrange(runs.last().0, runs.last().1));
        if v > u64::MAX {
            None
        } else {
            match nums_of_runs(s, runs.drop_last()) {
                Some(vs) => Some(vs.push(v as u64)),
                None => None,
            }
        }
    }
}

/// Reads the numbers on one line; `None` exactly when one overflows.
fn read_line_nums(line: &Vec<char>) -> (r: Option<Vec<u64>>)
    ensures
        match r {
            Some(v) => line_nums(line@) == Some(v@),
            None => line_nums(line@) is None,
        },
{
    let runs = runs_of(line);
    let n = runs.len();
    let mut out: Vec<u64> = Vec::new();
    let mut i: usize = 0;
    proof {
        assert(spec_runs(line@).take(0) =~= Seq::<(int, int)>::empty());
    }
    while i < n
        invariant
            0 <= i <= n,
            n == runs@.len(),
            n == spec_runs(line@).len(),
            forall|k: int|
                0 <= k < runs@.len() ==> (#[trigger] runs@[k]).0 as int == spec_runs(line@)[k].0
                    && runs@[k].1 as int == spec_runs(line@)[k].1,
            forall|k: int|
                0 <= k < runs@.len() ==> 0 <= (#[trigger] runs@[k]).0 < runs@[k].1
                    <= line@.len(),
            nums_of_runs(line@, spec_runs(line@).take(i as int)) == Some(out@),
        decreases n - i,
    {
        let (a, b) = runs[i];
        let piece = slice_chars(line, a, b);
        let ghost sub = line@.subrange(a as int, b as int);
        proof {
            lemma_runs_all_digits(line@, i as int);
            assert(!is_digit('+'));
            assert(sub[0] != '+');
            assert(crate::text::unsigned_body(sub) =~= sub);
            assert(spec_runs(line@).take(i + 1).drop_last() =~= spec_runs(line@).take(i as int));
            assert(spec_runs(line@).take(i + 1).last() == spec_runs(line@)[i as int]);
        }
        match parse_u64(&piece) {
            Some(v) => {
                out.push(v);
            },
            None => {
                proof {
                    lemma_nums_of_runs_none(line@, spec_runs(line@), i as int);
                }
                return None;
            },
        }
        i = i + 1;
    }
    proof {
        assert(spec_runs(line@).take(n as int) =~= spec_runs(line@));
    }
    Some(out)
}

/// A single oversized run makes the whole line unreadable.
pub proof fn lemma_nums_of_runs_none(s: Seq<char>, runs: Seq<(int, int)>, i: int)
    requires
        0 <= i < runs.len(),
        digits_val(s.subrange(runs[i].0, runs[i].1)) > u64::MAX,
    ensures
        nums_of_runs(s, runs) is None,
    decreases runs.len(),
{
    if i < runs.len() - 1 {
        assert(runs.drop_last()[i] == runs[i]);
        lemma_nums_of_runs_none(s, runs.drop_last(), i);
    }
}


/// A race in the counting domain, with at least one winning charge time.
pub open spec fn race_ok(t: u64, r: u64) -> bool {
    &&& t >= 2
    &&& t <= 0x1_0000_0000
    &&& exists|c: int| 1 <= c <= t - 1 && spec_winning(t as int, r as int, c)
}

/// A winning charge exists for each race, with room in the counting domain.
pub open spec fn races_ok(times: Seq<u64>, records: Seq<u64>) -> bool {
    forall|i: int|
        #![trigger times[i], records[i]]
        0 <= i < times.len() && i < records.len() ==> race_ok(times[i], records[i])
}

/// The product of the win counts of the first `k` races.
pub open spec fn wins_product(times: Seq<u64>, records: Seq<u64>, k: int) -> int
    decreases k,
{
    if k <= 0 {
        1
    } else {
        wins_product(times, records, k - 1) * spec_wins(
            times[k - 1] as int,
            records[k - 1] as int,
        )
    }
}

/// The number of race pairs: times and records zipped.
pub open spec fn race_count(times: Seq<u64>, records: Seq<u64>) -> int {
    if times.len() <= records.len() {
        times.len() as int
    } else {
        records.len() as int
    }
}

/// The whole first part as one condition on the input text.
pub open spec fn day_ok(s: Seq<char>) -> bool {
    &&& spec_lines(s).len() >= 2
    &&& line_nums(spec_lines(s)[0]) is Some
    &&& line_nums(spec_lines(s)[1]) is Some
    &&& races_ok(line_nums(spec_lines(s)[0])->Some_0, line_nums(spec_lines(s)[1])->Some_0)
    &&& forall|k: int|
        0 <= k <= race_count(
            line_nums(spec_lines(s)[0])->Some_0,
            line_nums(spec_lines(s)[1])->Some_0,
        ) ==> #[trigger] wins_product(
            line_nums(spec_lines(s)[0])->Some_0,
            line_nums(spec_lines(s)[1])->Some_0,
            k,
        ) <= u32::MAX
}

/// The product over all races of the number of winning charge times, one
/// race per number column of the first two lines.
pub fn part_one(input: &str) -> (r: u32)
    requires
        day_ok(input@),
    ensures
        r as int == wins_product(
            line_nums(spec_lines(input@)[0])->Some_0,
            line_nums(spec_lines(input@)[1])->Some_0,
            race_count(
                line_nums(spec_lines(input@)[0])->Some_0,
                line_nums(spec_lines(input@)[1])->Some_0,
            ),
        ),
{
    let cs = chars_of(input);
    let ls = lines_of(&cs);
    proof {
        assert(crate::text::views(ls@)[0] == ls@[0]@);
        assert(crate::text::views(ls@)[1] == ls@[1]@);
    }
    let times = match read_line_nums(&ls[0]) {
        Some(v) => v,
        None => {
            proof {
                assert(false);
            }
            return 0;
        },
    };
    let records = match read_line_nums(&ls[1]) {
        Some(v) => v,
        None => {
            proof {
                assert(false);
            }
            return 0;
        },
    };
    let ghost ts = line_nums(spec_lines(input@)[0])->Some_0;
    let ghost rs = line_nums(spec_lines(input@)[1])->Some_0;
    let count = if times.len() <= records.len() {
        times.len()
    } else {
        records.len()
    };
    let mut product: u32 = 1;
    let mut i: usize = 0;
    while i < count
        invariant
            0 <= i <= count,
            count as int == race_count(ts, rs),
            times@ == ts,
            records@ == rs,
            count <= times@.len(),
            count <= records@.len(),
            races_ok(ts, rs),
            forall|k: int| 0 <= k <= count as int ==> #[trigger] wins_product(ts, rs, k)
                <= u32::MAX,
            product as int == wins_product(ts, rs, i as int),
        decreases count - i,
    {
        proof {
            assert(times@[i as int] == ts[i as int]);
            assert(records@[i as int] == rs[i as int]);
            assert(race_ok(ts[i as int], rs[i as int]));
        }
        let race = Race::new(times[i], records[i]);
        proof {
            let w = choose|c: int|
                1 <= c <= ts[i as int] - 1 && spec_winning(
                    ts[i as int] as int,
                    rs[i as int] as int,
                    c,
                );
            assert(1 <= w <= race.time - 1 && spec_winning(
                race.time as int,
                race.record as int,
                w,
            ));
        }
        let wins = race.calculate_wins();
        proof {
            lemma_wins_product_nonneg(ts, rs, i as int);
            lemma_wins_nonneg(ts[i as int] as int, rs[i as int] as int);
            assert(wins_product(ts, rs, i + 1) == wins_product(ts, rs, i as int) * spec_wins(
                ts[i as int] as int,
                rs[i as int] as int,
            ));
            assert(product as int * wins as int <= u32::MAX) by {
                assert(wins_product(ts, rs, i + 1) <= u32::MAX);
            }
        }
        product = product * wins;
        i = i + 1;
    }
    product
}

pub proof fn lemma_wins_nonneg(time: int, record: int)
    ensures
        spec_wins(time, record) >= 0,
{
    lemma_wins_up_to_nonneg(time, record, time - 1);
}

pub proof fn lemma_wins_up_to_nonneg(time: int, record: int, k: int)
    ensures
        wins_up_to(time, record, k) >= 0,
    decreases k,
{
    if k > 0 {
        lemma_wins_up_to_nonneg(time, record, k - 1);
    }
}

pub proof fn lemma_wins_product_nonneg(times: Seq<u64>, records: Seq<u64>, k: int)
    ensures
        wins_product(times, records, k) >= 0,
    decreases k,
{
    if k > 0 {
        lemma_wins_product_nonneg(times, records, k - 1);
        lemma_wins_nonneg(times[k - 1] as int, records[k - 1] as int);
    }
}

/// All digit groups of a line concatenated into a single number.
pub open spec fn joined_num(s: Seq<char>) -> Option<u64> {
    let joined = concat_runs(s, spec_runs(s));
    if joined.len() > 0 && digits_val(joined) <= u64::MAX {
        Some(digits_val(joined) as u64)
    } else {
        None
    }
}

pub open spec fn concat_runs(s: Seq<char>, runs: Seq<(int, int)>) -> Seq<char>
    decreases runs.len(),
{
    if runs.len() == 0 {
        Seq::empty()
    } else {
        concat_runs(s, runs.drop_last()) + s.subrange(runs.last().0, runs.last().1)
    }
}

/// Reads the one big race of the second part: all digit groups of each line
/// joined into a single number.
fn read_joined(line: &Vec<char>) -> (r: Option<u64>)
    ensures
        match r {
            Some(v) => joined_num(line@) == Some(v),
            None => joined_num(line@) is None,
        },
{
    let runs = runs_of(line);
    let n = runs.len();
    let mut joined: Vec<char> = Vec::new();
    let mut i: usize = 0;
    proof {
        assert(spec_runs(line@).take(0) =~= Seq::<(int, int)>::empty());
        assert(joined@ =~= concat_runs(line@, spec_runs(line@).take(0)));
    }
    while i < n
        invariant
            0 <= i <= n,
            n == runs@.len(),
            n == spec_runs(line@).len(),
            forall|k: int|
                0 <= k < runs@.len() ==> (#[trigger] runs@[k]).0 as int == spec_runs(line@)[k].0
                    && runs@[k].1 as int == spec_runs(line@)[k].1,
            forall|k: int|
                0 <= k < runs@.len() ==> 0 <= (#[trigger] runs@[k]).0 < runs@[k].1
                    <= line@.len(),
            joined@ == concat_runs(line@, spec_runs(line@).take(i as int)),
        decreases n - i,
    {
        let (a, b) = runs[i];
        let mut piece = slice_chars(line, a, b);
        let ghost old_joined = joined@;
        joined.append(&mut piece);
        proof {
            assert(spec_runs(line@).take(i + 1).drop_last() =~= spec_runs(line@).take(i as int));
            assert(spec_runs(line@).take(i + 1).last() == spec_runs(line@)[i as int]);
            assert(joined@ =~= concat_runs(line@, spec_runs(line@).take(i + 1)));
        }
        i = i + 1;
    }
    proof {
        assert(spec_runs(line@).take(n as int) =~= spec_runs(line@));
        lemma_concat_runs_digits(line@, spec_runs(line@).len() as int);
        assert(crate::text::all_digits(joined@));
        if joined@.len() > 0 {
            assert(!crate::text::is_digit('+'));
            assert(joined@[0] != '+');
            assert(crate::text::unsigned_body(joined@) =~= joined@);
        }
    }
    if joined.len() == 0 {
        return None;
    }
    parse_u64(&joined)
}

pub proof fn lemma_concat_runs_digits(s: Seq<char>, m: int)
    requires
        0 <= m <= spec_runs(s).len(),
    ensures
        crate::text::all_digits(concat_runs(s, spec_runs(s).take(m))),
    decreases m,
{
    if m > 0 {
        lemma_concat_runs_digits(s, m - 1);
        lemma_runs_all_digits(s, m - 1);
        assert(spec_runs(s).take(m).drop_last() =~= spec_runs(s).take(m - 1));
        assert(spec_runs(s).take(m).last() == spec_runs(s)[m - 1]);
    }
}

/// The one big race: every digit group of each line joined into one number.
pub fn part_two(input: &str) -> (r: u32)
    requires
        spec_lines(input@).len() >= 2,
        joined_num(spec_lines(input@)[0]) is Some,
        joined_num(spec_lines(input@)[1]) is Some,
        joined_num(spec_lines(input@)[0])->Some_0 >= 2,
        joined_num(spec_lines(input@)[0])->Some_0 <= 0x1_0000_0000,
        exists|c: int|
            1 <= c <= joined_num(spec_lines(input@)[0])->Some_0 - 1 && spec_winning(
                joined_num(spec_lines(input@)[0])->Some_0 as int,
                joined_num(spec_lines(input@)[1])->Some_0 as int,
                c,
            ),
    ensures
        r as int == spec_wins(
            joined_num(spec_lines(input@)[0])->Some_0 as int,
            joined_num(spec_lines(input@)[1])->Some_0 as int,
        ),
{
    let cs = chars_of(input);
    let ls = lines_of(&cs);
    proof {
        assert(crate::text::views(ls@)[0] == ls@[0]@);
        assert(crate::text::views(ls@)[1] == ls@[1]@);
    }
    let time = match read_joined(&ls[0]) {
        Some(v) => v,
        None => {
            proof {
                assert(false);
            }
            return 0;
        },
    };
    let record = match read_joined(&ls[1]) {
        Some(v) => v,
        None => {
            proof {
                assert(false);
            }
            return 0;
        },
    };
    proof {
        assert(time == joined_num(spec_lines(input@)[0])->Some_0);
        assert(record == joined_num(spec_lines(input@)[1])->Some_0);
    }
    let race = Race::new(time, record);
    proof {
        let w = choose|c: int|
            1 <= c <= joined_num(spec_lines(input@)[0])->Some_0 - 1 && spec_winning(
                joined_num(spec_lines(input@)[0])->Some_0 as int,
                joined_num(spec_lines(input@)[1])->Some_0 as int,
                c,
            );
        assert(1 <= w <= race.time - 1 && spec_winning(
            race.time as int,
            race.record as int,
            w,
        ));
    }
    race.calculate_wins()
}

} // verus!
