//! Part numbers: numbers in the schematic count once for every adjacent
//! symbol, and a symbol adjacent to exactly two numbers contributes the
//! product of the two.

use vstd::prelude::*;
use crate::text::{
    chars_of,
    lines_of,
    runs_of,
    spec_lines,
    spec_runs,
    digits_val,
    is_digit,
    slice_chars,
    parse_u32,
    lemma_runs_all_digits,
};

verus! {

/// A grid position: column `x` in row `y`.
pub struct Coordinate {
    pub x: u32,
    pub y: u32,
}

/// Two positions are adjacent when both coordinates differ by at most one.
pub open spec fn spec_adjacent(ax: int, ay: int, bx: int, by: int) -> bool {
    &&& ax <= bx + 1
    &&& bx <= ax + 1
    &&& ay <= by + 1
    &&& by <= ay + 1
}

impl Coordinate {
    pub fn new(x: u32, y: u32) -> (r: Coordinate)
        ensures
            r == (Coordinate { x, y }),
    {
        Coordinate { x, y }
    }

    pub fn adjacent_to(&self, other: &Coordinate) -> (r: bool)
        ensures
            r == spec_adjacent(self.x as int, self.y as int, other.x as int, other.y as int),
    {
        let xa = self.x as u64;
        let xb = other.x as u64;
        let ya = self.y as u64;
        let yb = other.y as u64;
        xa <= xb + 1 && xb <= xa + 1 && ya <= yb + 1 && yb <= ya + 1
    }
}

/// A number in the schematic, with the cells its digits occupy.
pub struct Number {
    pub value: u32,
    pub positions: Vec<Coordinate>,
}

impl Number {
    pub fn new(value: u32, positions: Vec<Coordinate>) -> (r: Number)
        ensures
            r.value == value,
            r.positions@ == positions@,
    {
        Number { value, positions }
    }

    /// True iff some digit cell is adjacent to the symbol position.
    pub fn adjacent_to(&self, symbol_position: &Coordinate) -> (r: bool)
        ensures
            r == exists|i: int|
                0 <= i < self.positions@.len() && spec_adjacent(
                    (#[trigger] self.positions@[i]).x as int,
                    self.positions@[i].y as int,
                    symbol_position.x as int,
                    symbol_position.y as int,
                ),
    {
        let n = self.positions.len();
        let mut i: usize = 0;
        while i < n
            invariant
                0 <= i <= n,
                n == self.positions@.len(),
                forall|j: int|
                    0 <= j < i ==> !spec_adjacent(
                        (#[trigger] self.positions@[j]).x as int,
                        self.positions@[j].y as int,
                        symbol_position.x as int,
                        symbol_position.y as int,
                    ),
            decreases n - i,
        {
            if self.positions[i].adjacent_to(symbol_position) {
                return true;
            }
            i = i + 1;
        }
        false
    }
}

/// A schematic symbol: anything but a digit or a dot.
pub open spec fn is_symbol(c: char) -> bool {
    !is_digit(c) && c != '.'
}

/// The columns of a line that hold symbols, ascending.
pub open spec fn sym_cols(line: Seq<char>) -> Seq<int>
    decreases line.len(),
{
    if line.len() == 0 {
        Seq::empty()
    } else if is_symbol(line.last()) {
        sym_cols(line.drop_last()).push(line.len() - 1)
    } else {
        sym_cols(line.drop_last())
    }
}

/// All symbol positions of the schematic, row by row: `(column, row)` pairs.
pub open spec fn sym_positions(ls: Seq<Seq<char>>) -> Seq<(int, int)>
    decreases ls.len(),
{
    if ls.len() == 0 {
        Seq::empty()
    } else {
        sym_positions(ls.drop_last()) + sym_cols(ls.last()).map_values(
            |c: int| ((c, ls.len() - 1)),
        )
    }
}

/// All numbers of the schematic: `(value, row, first column, past-the-end
/// column)`.
pub open spec fn line_numbers(line: Seq<char>, y: int) -> Seq<(int, int, int, int)> {
    spec_runs(line).map_values(
        |r: (int, int)| ((digits_val(line.subrange(r.0, r.1)), y, r.0, r.1)),
    )
}

pub open spec fn all_numbers(ls: Seq<Seq<char>>) -> Seq<(int, int, int, int)>
    decreases ls.len(),
{
    if ls.len() == 0 {
        Seq::empty()
    } else {
        all_numbers(ls.drop_last()) + line_numbers(ls.last(), ls.len() - 1)
    }
}

/// A number is adjacent to a symbol when one of its digit cells is.
pub open spec fn num_adj(num: (int, int, int, int), sym: (int, int)) -> bool {
    exists|c: int| num.2 <= c < num.3 && spec_adjacent(c, num.1, sym.0, sym.1)
}

/// The first part's sum: each number counts once for every adjacent symbol.
pub open spec fn adj_sum_syms(num: (int, int, int, int), syms: Seq<(int, int)>) -> int
    decreases syms.len(),
{
    if syms.len() == 0 {
        0
    } else {
        adj_sum_syms(num, syms.drop_last()) + (if num_adj(num, syms.last()) {
            num.0
        } else {
            0int
        })
    }
}

pub open spec fn part_sum(nums: Seq<(int, int, int, int)>, syms: Seq<(int, int)>) -> int
    decreases nums.len(),
{
    if nums.len() == 0 {
        0
    } else {
        part_sum(nums.drop_last(), syms) + adj_sum_syms(nums.last(), syms)
    }
}

/// The second part's sum: the product of the two numbers at every symbol
/// adjacent to exactly two of them.
pub open spec fn adj_count(nums: Seq<(int, int, int, int)>, sym: (int, int)) -> int
    decreases nums.len(),
{
    if nums.len() == 0 {
        0
    } else {
        adj_count(nums.drop_last(), sym) + (if num_adj(nums.last(), sym) {
            1int
        } else {
            0int
        })
    }
}

/// The product of the adjacent numbers' values (all of them).
pub open spec fn adj_product(nums: Seq<(int, int, int, int)>, sym: (int, int)) -> int
    decreases nums.len(),
{
    if nums.len() == 0 {
        1
    } else {
        adj_product(nums.drop_last(), sym) * (if num_adj(nums.last(), sym) {
            nums.last().0
        } else {
            1int
        })
    }
}

pub open spec fn gear_sum(nums: Seq<(int, int, int, int)>, syms: Seq<(int, int)>) -> int
    decreases syms.len(),
{
    if syms.len() == 0 {
        0
    } else {
        gear_sum(nums, syms.drop_last()) + (if adj_count(nums, syms.last()) == 2 {
            adj_product(nums, syms.last())
        } else {
            0int
        })
    }
}

/// Sums are built from non-negative contributions.
pub proof fn lemma_num_value_nonneg(line: Seq<char>, y: int, k: int)
    requires
        0 <= k < line_numbers(line, y).len(),
    ensures
        line_numbers(line, y)[k].0 >= 0,
{
    lemma_runs_all_digits(line, k);
    let r = spec_runs(line)[k];
    crate::text::lemma_digits_val_nonneg(line.subrange(r.0, r.1));
}

/// All schematic numbers carry non-negative values.
pub open spec fn nums_nonneg(nums: Seq<(int, int, int, int)>) -> bool {
    forall|k: int| 0 <= k < nums.len() ==> (#[trigger] nums[k]).0 >= 0
}

/// All schematic numbers fit the result type.
pub open spec fn nums_bounded(nums: Seq<(int, int, int, int)>) -> bool {
    forall|k: int| 0 <= k < nums.len() ==> (#[trigger] nums[k]).0 <= u32::MAX
}

pub proof fn lemma_all_numbers_nonneg(ls: Seq<Seq<char>>)
    ensures
        nums_nonneg(all_numbers(ls)),
    decreases ls.len(),
{
    if ls.len() > 0 {
        lemma_all_numbers_nonneg(ls.drop_last());
        assert forall|k: int| 0 <= k < all_numbers(ls).len() implies (#[trigger] all_numbers(
            ls,
        )[k]).0 >= 0 by {
            let pre = all_numbers(ls.drop_last());
            if k < pre.len() {
            } else {
                lemma_num_value_nonneg(ls.last(), ls.len() - 1, k - pre.len());
            }
        }
    }
}

/// Under the input conditions every number's value fits the result type.
pub proof fn lemma_all_numbers_bounded(ls: Seq<Seq<char>>, m: int)
    requires
        0 <= m <= ls.len(),
        forall|i: int, k: int|
            0 <= i < ls.len() && 0 <= k < line_numbers(#[trigger] ls[i], i).len() ==> (
            #[trigger] line_numbers(ls[i], i)[k]).0 <= u32::MAX,
    ensures
        nums_bounded(all_numbers(ls.take(m))),
    decreases m,
{
    if m > 0 {
        lemma_all_numbers_bounded(ls, m - 1);
        assert(ls.take(m).drop_last() =~= ls.take(m - 1));
        assert(ls.take(m).last() == ls[m - 1]);
        assert(all_numbers(ls.take(m)) == all_numbers(ls.take(m - 1)) + line_numbers(
            ls[m - 1],
            m - 1,
        ));
        assert forall|k: int| 0 <= k < all_numbers(ls.take(m)).len() implies (
        #[trigger] all_numbers(ls.take(m))[k]).0 <= u32::MAX by {
            let pre = all_numbers(ls.take(m - 1));
            if k >= pre.len() {
                assert(all_numbers(ls.take(m))[k] == line_numbers(ls[m - 1], m - 1)[k
                    - pre.len()]);
            }
        }
    }
}

pub proof fn lemma_adj_sum_syms_prefix(num: (int, int, int, int), syms: Seq<(int, int)>, k: int)
    requires
        0 <= k <= syms.len(),
        num.0 >= 0,
    ensures
        0 <= adj_sum_syms(num, syms.take(k)) <= adj_sum_syms(num, syms),
    decreases syms.len() - k,
{
    lemma_adj_sum_syms_nonneg(num, syms.take(k));
    if k < syms.len() {
        lemma_adj_sum_syms_prefix(num, syms, k + 1);
        assert(syms.take(k + 1).drop_last() =~= syms.take(k));
        assert(syms.take(k + 1).last() == syms[k]);
    } else {
        assert(syms.take(k) =~= syms);
    }
}

pub proof fn lemma_adj_sum_syms_nonneg(num: (int, int, int, int), syms: Seq<(int, int)>)
    requires
        num.0 >= 0,
    ensures
        adj_sum_syms(num, syms) >= 0,
    decreases syms.len(),
{
    if syms.len() > 0 {
        lemma_adj_sum_syms_nonneg(num, syms.drop_last());
    }
}

pub proof fn lemma_part_sum_prefix(nums: Seq<(int, int, int, int)>, syms: Seq<(int, int)>, k: int)
    requires
        0 <= k <= nums.len(),
        nums_nonneg(nums),
    ensures
        0 <= part_sum(nums.take(k), syms) <= part_sum(nums, syms),
    decreases nums.len() - k,
{
    assert(nums_nonneg(nums.take(k))) by {
        assert(forall|j: int| 0 <= j < nums.take(k).len() ==> nums.take(k)[j] == nums[j]);
    }
    lemma_part_sum_nonneg(nums.take(k), syms);
    if k < nums.len() {
        lemma_part_sum_prefix(nums, syms, k + 1);
        assert(nums.take(k + 1).drop_last() =~= nums.take(k));
        assert(nums.take(k + 1).last() == nums[k]);
        lemma_adj_sum_syms_nonneg(nums[k], syms);
    } else {
        assert(nums.take(k) =~= nums);
    }
}

pub proof fn lemma_part_sum_nonneg(nums: Seq<(int, int, int, int)>, syms: Seq<(int, int)>)
    requires
        nums_nonneg(nums),
    ensures
        part_sum(nums, syms) >= 0,
    decreases nums.len(),
{
    if nums.len() > 0 {
        assert(nums_nonneg(nums.drop_last())) by {
            assert(forall|k: int|
                0 <= k < nums.drop_last().len() ==> nums.drop_last()[k] == nums[k]);
        }
        lemma_part_sum_nonneg(nums.drop_last(), syms);
        lemma_adj_sum_syms_nonneg(nums.last(), syms);
    }
}

/// The schematic's symbols and numbers as plain vectors.
struct Scan {
    syms: Vec<Coordinate>,
    nums: Vec<Number>,
}

/// Exec numbers correspond to the spec tuples.
pub open spec fn number_matches(n: Number, t: (int, int, int, int)) -> bool {
    &&& n.value == t.0
    &&& t.2 <= t.3
    &&& n.positions@.len() == t.3 - t.2
    &&& forall|i: int|
        0 <= i < n.positions@.len() ==> (#[trigger] n.positions@[i]).x == t.2 + i
            && n.positions@[i].y == t.1
}

/// The input stays within the coordinate domain and every sum and every
/// number fits.
pub open spec fn day_ok(ls: Seq<Seq<char>>) -> bool {
    &&& ls.len() <= u32::MAX
    &&& forall|i: int| 0 <= i < ls.len() ==> (#[trigger] ls[i]).len() <= u32::MAX
    &&& forall|i: int, k: int|
        0 <= i < ls.len() && 0 <= k < line_numbers(#[trigger] ls[i], i).len() ==> (
        #[trigger] line_numbers(ls[i], i)[k]).0 <= u32::MAX
    &&& part_sum(all_numbers(ls), sym_positions(ls)) <= u32::MAX
    &&& forall|k: int|
        0 <= k < sym_positions(ls).len() ==> (adj_count(
            all_numbers(ls),
            #[trigger] sym_positions(ls)[k],
        ) == 2 ==> adj_product(all_numbers(ls), sym_positions(ls)[k]) <= u32::MAX)
    &&& gear_sum(all_numbers(ls), sym_positions(ls)) <= u32::MAX
}

/// Scans the schematic once.
fn scan(input: &str) -> (r: Scan)
    requires
        day_ok(spec_lines(input@)),
    ensures
        ({
            let ls = spec_lines(input@);
            &&& r.syms@.len() == sym_positions(ls).len()
            &&& forall|k: int|
                0 <= k < r.syms@.len() ==> (#[trigger] r.syms@[k]).x as int == sym_positions(
                    ls,
                )[k].0 && r.syms@[k].y as int == sym_positions(ls)[k].1
            &&& r.nums@.len() == all_numbers(ls).len()
            &&& forall|k: int|
                0 <= k < r.nums@.len() ==> number_matches(
                    #[trigger] r.nums@[k],
                    all_numbers(ls)[k],
                )
        }),
{
    let cs = chars_of(input);
    let ls = lines_of(&cs);
    let ghost lv = crate::text::views(ls@);
    let n = ls.len();
    let mut syms: Vec<Coordinate> = Vec::new();
    let mut nums: Vec<Number> = Vec::new();
    let mut y: usize = 0;
    proof {
        assert(lv.take(0) =~= Seq::<Seq<char>>::empty());
    }
    while y < n
        invariant
            0 <= y <= n,
            n == ls@.len(),
            n == lv.len(),
            lv == crate::text::views(ls@),
            day_ok(lv),
            syms@.len() == sym_positions(lv.take(y as int)).len(),
            forall|k: int|
                0 <= k < syms@.len() ==> (#[trigger] syms@[k]).x as int == sym_positions(
                    lv.take(y as int),
                )[k].0 && syms@[k].y as int == sym_positions(lv.take(y as int))[k].1,
            forall|k: int|
                0 <= k < syms@.len() ==> sym_positions(lv.take(y as int))[k] == sym_positions(
                    lv,
                )[k],
            nums@.len() == all_numbers(lv.take(y as int)).len(),
            forall|k: int|
                0 <= k < nums@.len() ==> number_matches(
                    #[trigger] nums@[k],
                    all_numbers(lv.take(y as int))[k],
                ),
            forall|k: int|
                0 <= k < nums@.len() ==> all_numbers(lv.take(y as int))[k] == all_numbers(lv)[k],
            sym_positions(lv.take(y as int)).len() <= sym_positions(lv).len(),
            all_numbers(lv.take(y as int)).len() <= all_numbers(lv).len(),
        decreases n - y,
    {
        let line = &ls[y];
        proof {
            assert(lv[y as int] == ls@[y as int]@);
            assert(lv.take(y + 1).drop_last() =~= lv.take(y as int));
            assert(lv.take(y + 1).last() == lv[y as int]);
            lemma_sym_positions_prefix(lv, y + 1);
            lemma_all_numbers_prefix(lv, y + 1);
        }
        // symbols of this line
        let m = line.len();
        let mut x: usize = 0;
        let ghost line_v = lv[y as int];
        proof {
            assert(line_v.take(0) =~= Seq::<char>::empty());
            assert(syms@.len() == sym_positions(lv.take(y as int)).len() + sym_cols(
                line_v.take(0),
            ).len());
        }
        while x < m
            invariant
                0 <= x <= m,
                m == line_v.len(),
                line@ == line_v,
                m <= u32::MAX,
                y < n,
                n == ls@.len(),
                n == lv.len(),
                line_v == lv[y as int],
                line_v == ls@[y as int]@,
                y <= u32::MAX,
                syms@.len() == sym_positions(lv.take(y as int)).len() + sym_cols(
                    line_v.take(x as int),
                ).len(),
                forall|k: int|
                    0 <= k < sym_positions(lv.take(y as int)).len() ==> (
                    #[trigger] syms@[k]).x as int == sym_positions(lv.take(y as int))[k].0
                        && syms@[k].y as int == sym_positions(lv.take(y as int))[k].1,
                forall|k: int|
                    sym_positions(lv.take(y as int)).len() <= k < syms@.len() ==> (
                    #[trigger] syms@[k]).x as int == sym_cols(line_v.take(x as int))[k
                        - sym_positions(lv.take(y as int)).len()] && syms@[k].y as int
                        == y as int,
            decreases m - x,
        {
            let c = line[x];
            proof {
                assert(line_v.take(x + 1).drop_last() =~= line_v.take(x as int));
                assert(line_v.take(x + 1).last() == c);
            }
            if !(c >= '0' && c <= '9') && c != '.' {
                syms.push(Coordinate { x: x as u32, y: y as u32 });
            }
            x = x + 1;
        }
        proof {
            assert(line_v.take(m as int) =~= line_v);
        }
        // numbers of this line
        let runs = runs_of(line);
        let rn = runs.len();
        let mut ri: usize = 0;
        proof {
            assert(spec_runs(line_v).take(0) =~= Seq::<(int, int)>::empty());
            assert(nums@.len() == all_numbers(lv.take(y as int)).len() + 0);
        }
        while ri < rn
            invariant
                0 <= ri <= rn,
                rn == runs@.len(),
                rn == spec_runs(line_v).len(),
                line@ == line_v,
                y < n,
                n == ls@.len(),
                n == lv.len(),
                day_ok(lv),
                line_v == lv[y as int],
                line_v == ls@[y as int]@,
                line_v.len() <= u32::MAX,
                y <= u32::MAX,
                forall|k: int|
                    0 <= k < runs@.len() ==> (#[trigger] runs@[k]).0 as int == spec_runs(
                        line_v,
                    )[k].0 && runs@[k].1 as int == spec_runs(line_v)[k].1,
                forall|k: int|
                    0 <= k < runs@.len() ==> 0 <= (#[trigger] runs@[k]).0 < runs@[k].1
                        <= line_v.len(),
                nums@.len() == all_numbers(lv.take(y as int)).len() + ri,
                forall|k: int|
                    0 <= k < all_numbers(lv.take(y as int)).len() ==> number_matches(
                        #[trigger] nums@[k],
                        all_numbers(lv.take(y as int))[k],
                    ),
                forall|k: int|
                    all_numbers(lv.take(y as int)).len() <= k < nums@.len() ==> number_matches(
                        #[trigger] nums@[k],
                        line_numbers(line_v, y as int)[k - all_numbers(
                            lv.take(y as int),
                        ).len()],
                    ),
            decreases rn - ri,
        {
            let (a, b) = runs[ri];
            let piece = slice_chars(line, a, b);
            proof {
                lemma_runs_all_digits(line_v, ri as int);
                assert(!is_digit('+'));
                assert(piece@[0] != '+');
                assert(crate::text::unsigned_body(piece@) =~= piece@);
                assert(line_numbers(line_v, y as int)[ri as int] == ((
                    digits_val(line_v.subrange(a as int, b as int)),
                    y as int,
                    a as int,
                    b as int,
                )));
                assert(line_numbers(lv[y as int], y as int)[ri as int].0 <= u32::MAX);
                assert(digits_val(line_v.subrange(a as int, b as int)) <= u32::MAX);
                assert(crate::text::all_digits(piece@));
            }
            let value = match parse_u32(&piece) {
                Some(v) => v,
                None => {
                    proof {
                        assert(false);
                    }
                    0
                },
            };
            let mut positions: Vec<Coordinate> = Vec::new();
            let mut ci: usize = a;
            while ci < b
                invariant
                    a <= ci <= b,
                    b <= line_v.len(),
                    line_v.len() <= u32::MAX,
                    y <= u32::MAX,
                    positions@.len() == ci - a,
                    forall|i: int|
                        0 <= i < positions@.len() ==> (#[trigger] positions@[i]).x == a + i
                            && positions@[i].y == y as u32,
                decreases b - ci,
            {
                positions.push(Coordinate { x: ci as u32, y: y as u32 });
                ci = ci + 1;
            }
            let ghost t = line_numbers(line_v, y as int)[ri as int];
            proof {
                crate::text::lemma_digits_val_nonneg(piece@);
                assert(crate::text::spec_parse_u32(piece@) == Some(value));
                assert(value as int == digits_val(piece@));
                assert(piece@ == line_v.subrange(a as int, b as int));
                assert(value as int == t.0);
            }
            nums.push(Number { value, positions });
            proof {
                assert(number_matches(nums@[nums@.len() - 1], t));
            }
            ri = ri + 1;
        }
        proof {
            assert(spec_runs(line_v).take(rn as int) =~= spec_runs(line_v));
            assert(sym_positions(lv.take(y + 1)) =~= sym_positions(lv.take(y as int))
                + sym_cols(line_v).map_values(|c: int| ((c, y as int))));
            assert(all_numbers(lv.take(y + 1)) =~= all_numbers(lv.take(y as int))
                + line_numbers(line_v, y as int));
            assert forall|k: int| 0 <= k < syms@.len() implies (#[trigger] syms@[k]).x as int
                == sym_positions(lv.take(y + 1))[k].0 && syms@[k].y as int == sym_positions(
                lv.take(y + 1),
            )[k].1 by {
                let base = sym_positions(lv.take(y as int)).len();
                if k >= base {
                    assert(sym_positions(lv.take(y + 1))[k] == sym_cols(line_v).map_values(
                        |c: int| ((c, y as int)),
                    )[k - base]);
                }
            }
            assert forall|k: int| 0 <= k < nums@.len() implies number_matches(
                #[trigger] nums@[k],
                all_numbers(lv.take(y + 1))[k],
            ) by {
                let base = all_numbers(lv.take(y as int)).len();
                if k >= base {
                    assert(all_numbers(lv.take(y + 1))[k] == line_numbers(line_v, y as int)[k
                        - base]);
                }
            }
            lemma_sym_positions_prefix(lv, y + 1);
            lemma_all_numbers_prefix(lv, y + 1);
        }
        y = y + 1;
    }
    proof {
        assert(lv.take(n as int) =~= lv);
    }
    Scan { syms, nums }
}

/// Prefixes of the line list contribute prefixes of the position lists.
pub proof fn lemma_sym_positions_prefix(ls: Seq<Seq<char>>, y: int)
    requires
        0 <= y <= ls.len(),
    ensures
        sym_positions(ls.take(y)).len() <= sym_positions(ls).len(),
        forall|k: int|
            0 <= k < sym_positions(ls.take(y)).len() ==> #[trigger] sym_positions(ls.take(y))[k]
                == sym_positions(ls)[k],
    decreases ls.len() - y,
{
    if y < ls.len() {
        lemma_sym_positions_prefix(ls, y + 1);
        assert(ls.take(y + 1).drop_last() =~= ls.take(y));
        assert(ls.take(y + 1).last() == ls[y]);
        assert(sym_positions(ls.take(y + 1)) == sym_positions(ls.take(y)) + sym_cols(
            ls[y],
        ).map_values(|c: int| ((c, y))));
        assert forall|k: int|
            0 <= k < sym_positions(ls.take(y)).len() implies #[trigger] sym_positions(
            ls.take(y),
        )[k] == sym_positions(ls)[k] by {
            assert(sym_positions(ls.take(y + 1))[k] == sym_positions(ls.take(y))[k]);
        }
    } else {
        assert(ls.take(y) =~= ls);
    }
}

pub proof fn lemma_all_numbers_prefix(ls: Seq<Seq<char>>, y: int)
    requires
        0 <= y <= ls.len(),
    ensures
        all_numbers(ls.take(y)).len() <= all_numbers(ls).len(),
        forall|k: int|
            0 <= k < all_numbers(ls.take(y)).len() ==> #[trigger] all_numbers(ls.take(y))[k]
                == all_numbers(ls)[k],
    decreases ls.len() - y,
{
    if y < ls.len() {
        lemma_all_numbers_prefix(ls, y + 1);
        assert(ls.take(y + 1).drop_last() =~= ls.take(y));
        assert(ls.take(y + 1).last() == ls[y]);
        assert(all_numbers(ls.take(y + 1)) == all_numbers(ls.take(y)) + line_numbers(ls[y], y));
        assert forall|k: int|
            0 <= k < all_numbers(ls.take(y)).len() implies #[trigger] all_numbers(
            ls.take(y),
        )[k] == all_numbers(ls)[k] by {
            assert(all_numbers(ls.take(y + 1))[k] == all_numbers(ls.take(y))[k]);
        }
    } else {
        assert(ls.take(y) =~= ls);
    }
}

/// The sum of every number, once for each adjacent symbol.
pub fn part_one(input: &str) -> (r: u32)
    requires
        day_ok(spec_lines(input@)),
    ensures
        r as int == part_sum(all_numbers(spec_lines(input@)), sym_positions(spec_lines(input@))),
{
    let ghost ls = spec_lines(input@);
    let ghost nums_spec = all_numbers(ls);
    let ghost syms_spec = sym_positions(ls);
    let scan = scan(input);
    proof {
        lemma_all_numbers_nonneg(ls);
    }
    let mut sum: u32 = 0;
    let nn = scan.nums.len();
    let mut ni: usize = 0;
    proof {
        assert(nums_spec.take(0) =~= Seq::<(int, int, int, int)>::empty());
    }
    while ni < nn
        invariant
            0 <= ni <= nn,
            nn == scan.nums@.len(),
            nn == nums_spec.len(),
            nums_spec == all_numbers(ls),
            syms_spec == sym_positions(ls),
            nums_nonneg(nums_spec),
            part_sum(nums_spec, syms_spec) <= u32::MAX,
            scan.syms@.len() == syms_spec.len(),
            forall|k: int|
                0 <= k < scan.syms@.len() ==> (#[trigger] scan.syms@[k]).x as int
                    == syms_spec[k].0 && scan.syms@[k].y as int == syms_spec[k].1,
            forall|k: int|
                0 <= k < scan.nums@.len() ==> number_matches(
                    #[trigger] scan.nums@[k],
                    nums_spec[k],
                ),
            sum as int == part_sum(nums_spec.take(ni as int), syms_spec),
        decreases nn - ni,
    {
        let sn = scan.syms.len();
        let mut si: usize = 0;
        proof {
            assert(syms_spec.take(0) =~= Seq::<(int, int)>::empty());
        }
        while si < sn
            invariant
                0 <= si <= sn,
                0 <= ni < nn,
                sn == scan.syms@.len(),
                sn == syms_spec.len(),
                nn == scan.nums@.len(),
                nn == nums_spec.len(),
                nums_spec == all_numbers(ls),
                syms_spec == sym_positions(ls),
                nums_nonneg(nums_spec),
                part_sum(nums_spec, syms_spec) <= u32::MAX,
                forall|k: int|
                    0 <= k < scan.syms@.len() ==> (#[trigger] scan.syms@[k]).x as int
                        == syms_spec[k].0 && scan.syms@[k].y as int == syms_spec[k].1,
                forall|k: int|
                    0 <= k < scan.nums@.len() ==> number_matches(
                        #[trigger] scan.nums@[k],
                        nums_spec[k],
                    ),
                sum as int == part_sum(nums_spec.take(ni as int), syms_spec) + adj_sum_syms(
                    nums_spec[ni as int],
                    syms_spec.take(si as int),
                ),
            decreases sn - si,
        {
            let adj = scan.nums[ni].adjacent_to(&scan.syms[si]);
            proof {
                assert(syms_spec.take(si + 1).drop_last() =~= syms_spec.take(si as int));
                assert(syms_spec.take(si + 1).last() == syms_spec[si as int]);
                lemma_adjacency_bridge(scan.nums@[ni as int], nums_spec[ni as int], scan.syms@[
                    si as int
                ], syms_spec[si as int]);
                lemma_part_sum_prefix(nums_spec, syms_spec, ni + 1);
                assert(nums_spec.take(ni + 1).drop_last() =~= nums_spec.take(ni as int));
                assert(nums_spec.take(ni + 1).last() == nums_spec[ni as int]);
                lemma_adj_sum_syms_prefix(nums_spec[ni as int], syms_spec, si + 1);
                lemma_part_sum_nonneg(nums_spec.take(ni as int), syms_spec);
                assert(nums_nonneg(nums_spec.take(ni as int))) by {
                    assert(forall|k: int|
                        0 <= k < nums_spec.take(ni as int).len() ==> nums_spec.take(
                            ni as int,
                        )[k] == nums_spec[k]);
                }
            }
            if adj {
                sum = sum + scan.nums[ni].value;
            }
            si = si + 1;
        }
        proof {
            assert(syms_spec.take(sn as int) =~= syms_spec);
            assert(nums_spec.take(ni + 1).drop_last() =~= nums_spec.take(ni as int));
            assert(nums_spec.take(ni + 1).last() == nums_spec[ni as int]);
        }
        ni = ni + 1;
    }
    proof {
        assert(nums_spec.take(nn as int) =~= nums_spec);
    }
    sum
}

/// A number's cell-by-cell adjacency agrees with the interval statement.
pub proof fn lemma_adjacency_bridge(
    n: Number,
    t: (int, int, int, int),
    c: Coordinate,
    s: (int, int),
)
    requires
        number_matches(n, t),
        c.x as int == s.0,
        c.y as int == s.1,
    ensures
        (exists|i: int|
            0 <= i < n.positions@.len() && spec_adjacent(
                (#[trigger] n.positions@[i]).x as int,
                n.positions@[i].y as int,
                c.x as int,
                c.y as int,
            )) == num_adj(t, s),
{
    if exists|i: int|
        0 <= i < n.positions@.len() && spec_adjacent(
            (#[trigger] n.positions@[i]).x as int,
            n.positions@[i].y as int,
            c.x as int,
            c.y as int,
        ) {
        let i = choose|i: int|
            0 <= i < n.positions@.len() && spec_adjacent(
                (#[trigger] n.positions@[i]).x as int,
                n.positions@[i].y as int,
                c.x as int,
                c.y as int,
            );
        assert(t.2 <= t.2 + i < t.3 && spec_adjacent(t.2 + i, t.1, s.0, s.1));
    }
    if num_adj(t, s) {
        let cc = choose|cc: int| t.2 <= cc < t.3 && spec_adjacent(cc, t.1, s.0, s.1);
        assert(n.positions@[cc - t.2].x as int == cc);
        assert(spec_adjacent(
            n.positions@[cc - t.2].x as int,
            n.positions@[cc - t.2].y as int,
            c.x as int,
            c.y as int,
        ));
    }
}

/// The sum over symbols adjacent to exactly two numbers of the product of
/// those two numbers.
pub fn part_two(input: &str) -> (r: u32)
    requires
        day_ok(spec_lines(input@)),
    ensures
        r as int == gear_sum(all_numbers(spec_lines(input@)), sym_positions(spec_lines(input@))),
{
    let ghost ls = spec_lines(input@);
    let ghost nums_spec = all_numbers(ls);
    let ghost syms_spec = sym_positions(ls);
    let scan = scan(input);
    proof {
        lemma_all_numbers_nonneg(ls);
        lemma_all_numbers_bounded(ls, ls.len() as int);
        assert(ls.take(ls.len() as int) =~= ls);
    }
    let mut sum: u32 = 0;
    let sn = scan.syms.len();
    let mut si: usize = 0;
    proof {
        assert(syms_spec.take(0) =~= Seq::<(int, int)>::empty());
    }
    while si < sn
        invariant
            0 <= si <= sn,
            sn == scan.syms@.len(),
            sn == syms_spec.len(),
            nums_spec == all_numbers(ls),
            syms_spec == sym_positions(ls),
            nums_nonneg(nums_spec),
            nums_bounded(nums_spec),
            scan.nums@.len() == nums_spec.len(),
            gear_sum(nums_spec, syms_spec) <= u32::MAX,
            forall|k: int|
                0 <= k < syms_spec.len() ==> (adj_count(nums_spec, #[trigger] syms_spec[k]) == 2
                    ==> adj_product(nums_spec, syms_spec[k]) <= u32::MAX),
            forall|k: int|
                0 <= k < scan.syms@.len() ==> (#[trigger] scan.syms@[k]).x as int
                    == syms_spec[k].0 && scan.syms@[k].y as int == syms_spec[k].1,
            forall|k: int|
                0 <= k < scan.nums@.len() ==> number_matches(
                    #[trigger] scan.nums@[k],
                    nums_spec[k],
                ),
            sum as int == gear_sum(nums_spec, syms_spec.take(si as int)),
        decreases sn - si,
    {
        let nn = scan.nums.len();
        let mut count: usize = 0;
        let mut prod: u64 = 1;
        let mut ni: usize = 0;
        proof {
            assert(nums_spec.take(0) =~= Seq::<(int, int, int, int)>::empty());
        }
        while ni < nn
            invariant
                0 <= ni <= nn,
                0 <= si < sn,
                nn == scan.nums@.len(),
                nn == nums_spec.len(),
                sn == scan.syms@.len(),
                sn == syms_spec.len(),
                nums_nonneg(nums_spec),
                nums_bounded(nums_spec),
                forall|k: int|
                    0 <= k < scan.syms@.len() ==> (#[trigger] scan.syms@[k]).x as int
                        == syms_spec[k].0 && scan.syms@[k].y as int == syms_spec[k].1,
                forall|k: int|
                    0 <= k < scan.nums@.len() ==> number_matches(
                        #[trigger] scan.nums@[k],
                        nums_spec[k],
                    ),
                count as int == adj_count(nums_spec.take(ni as int), syms_spec[si as int]),
                count <= ni,
                count <= 2 ==> prod as int == adj_product(
                    nums_spec.take(ni as int),
                    syms_spec[si as int],
                ),
            decreases nn - ni,
        {
            let adj = scan.nums[ni].adjacent_to(&scan.syms[si]);
            proof {
                lemma_adjacency_bridge(scan.nums@[ni as int], nums_spec[ni as int], scan.syms@[
                    si as int
                ], syms_spec[si as int]);
                assert(nums_spec.take(ni + 1).drop_last() =~= nums_spec.take(ni as int));
                assert(nums_spec.take(ni + 1).last() == nums_spec[ni as int]);
                lemma_adj_count_bounds(nums_spec.take(ni as int), syms_spec[si as int]);
            }
            if adj {
                if count < 2 {
                    let v = scan.nums[ni].value;
                    proof {
                        assert(nums_nonneg(nums_spec.take(ni as int)) && nums_bounded(
                            nums_spec.take(ni as int),
                        )) by {
                            assert(forall|k: int|
                                0 <= k < nums_spec.take(ni as int).len() ==> nums_spec.take(
                                    ni as int,
                                )[k] == nums_spec[k]);
                        }
                        lemma_adj_product_two_bound(
                            nums_spec.take(ni as int),
                            syms_spec[si as int],
                            count as int,
                        );
                        assert((u32::MAX as int) * (u32::MAX as int) <= u64::MAX as int);
                        assert((prod as int) * (v as int) <= (u32::MAX as int) * (
                        u32::MAX as int)) by (nonlinear_arith)
                            requires
                                0 <= prod as int <= u32::MAX as int,
                                0 <= v as int <= u32::MAX as int,
                        ;
                        assert((prod as int) * ((v as u64) as int) <= u64::MAX as int);
                    }
                    prod = prod * (v as u64);
                }
                count = count + 1;
            }
            ni = ni + 1;
        }
        proof {
            assert(nums_spec.take(nn as int) =~= nums_spec);
            assert(syms_spec.take(si + 1).drop_last() =~= syms_spec.take(si as int));
            assert(syms_spec.take(si + 1).last() == syms_spec[si as int]);
            lemma_gear_sum_prefix(nums_spec, syms_spec, si + 1);
            lemma_gear_sum_nonneg(nums_spec, syms_spec.take(si as int));
        }
        if count == 2 {
            sum = sum + (prod as u32);
        }
        si = si + 1;
    }
    proof {
        assert(syms_spec.take(sn as int) =~= syms_spec);
    }
    sum
}

pub proof fn lemma_adj_count_bounds(nums: Seq<(int, int, int, int)>, sym: (int, int))
    ensures
        0 <= adj_count(nums, sym) <= nums.len(),
    decreases nums.len(),
{
    if nums.len() > 0 {
        lemma_adj_count_bounds(nums.drop_last(), sym);
    }
}

/// While at most two adjacent numbers have been seen, their product is
/// bounded by the full product's bound only if it stays under two factors;
/// what matters here is only that it fits the unsigned 64-bit domain.
pub proof fn lemma_adj_product_two_bound(
    nums: Seq<(int, int, int, int)>,
    sym: (int, int),
    count: int,
)
    requires
        nums_nonneg(nums),
        nums_bounded(nums),
        count == adj_count(nums, sym),
        count <= 1,
    ensures
        0 <= adj_product(nums, sym) <= if count == 0 {
            1int
        } else {
            0xffff_ffffint
        },
    decreases nums.len(),
{
    if nums.len() > 0 {
        assert(nums_nonneg(nums.drop_last()) && nums_bounded(nums.drop_last())) by {
            assert(forall|k: int|
                0 <= k < nums.drop_last().len() ==> nums.drop_last()[k] == nums[k]);
        }
        lemma_adj_count_bounds(nums.drop_last(), sym);
        if num_adj(nums.last(), sym) {
            lemma_adj_product_two_bound(nums.drop_last(), sym, 0);
            assert(adj_product(nums.drop_last(), sym) * nums.last().0 <= nums.last().0)
                by (nonlinear_arith)
                requires
                    0 <= adj_product(nums.drop_last(), sym) <= 1,
                    nums.last().0 >= 0,
            ;
            assert(adj_product(nums.drop_last(), sym) * nums.last().0 >= 0) by (nonlinear_arith)
                requires
                    adj_product(nums.drop_last(), sym) >= 0,
                    nums.last().0 >= 0,
            ;
        } else {
            lemma_adj_product_two_bound(nums.drop_last(), sym, count);
        }
    }
}

pub proof fn lemma_gear_sum_nonneg(nums: Seq<(int, int, int, int)>, syms: Seq<(int, int)>)
    requires
        nums_nonneg(nums),
    ensures
        gear_sum(nums, syms) >= 0,
    decreases syms.len(),
{
    if syms.len() > 0 {
        lemma_gear_sum_nonneg(nums, syms.drop_last());
        if adj_count(nums, syms.last()) == 2 {
            lemma_adj_product_nonneg(nums, syms.last());
        }
    }
}

pub proof fn lemma_adj_product_nonneg(nums: Seq<(int, int, int, int)>, sym: (int, int))
    requires
        nums_nonneg(nums),
    ensures
        adj_product(nums, sym) >= 0,
    decreases nums.len(),
{
    if nums.len() > 0 {
        assert(nums_nonneg(nums.drop_last())) by {
            assert(forall|k: int|
                0 <= k < nums.drop_last().len() ==> nums.drop_last()[k] == nums[k]);
        }
        lemma_adj_product_nonneg(nums.drop_last(), sym);
        let f = if num_adj(nums.last(), sym) {
            nums.last().0
        } else {
            1int
        };
        assert(adj_product(nums.drop_last(), sym) * f >= 0) by (nonlinear_arith)
            requires
                adj_product(nums.drop_last(), sym) >= 0,
                f >= 0,
        ;
    }
}

pub proof fn lemma_gear_sum_prefix(
    nums: Seq<(int, int, int, int)>,
    syms: Seq<(int, int)>,
    k: int,
)
    requires
        nums_nonneg(nums),
        0 <= k <= syms.len(),
        forall|j: int|
            0 <= j < syms.len() ==> (adj_count(nums, #[trigger] syms[j]) == 2 ==> adj_product(
                nums,
                syms[j],
            ) <= u32::MAX),
    ensures
        0 <= gear_sum(nums, syms.take(k)) <= gear_sum(nums, syms),
    decreases syms.len() - k,
{
    lemma_gear_sum_nonneg(nums, syms.take(k));
    if k < syms.len() {
        lemma_gear_sum_prefix(nums, syms, k + 1);
        assert(syms.take(k + 1).drop_last() =~= syms.take(k));
        assert(syms.take(k + 1).last() == syms[k]);
        if adj_count(nums, syms[k]) == 2 {
            lemma_adj_product_nonneg(nums, syms[k]);
        }
    } else {
        assert(syms.take(k) =~= syms);
    }
}

} // verus!
