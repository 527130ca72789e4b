//! The galaxy map: empty rows and columns of the grid expand to twice their
//! width before summing the pairwise distances between galaxies.

use vstd::prelude::*;
use crate::text::{chars_of, lines_of, spec_lines};

verus! {

/// A cell of the map.
#[derive(Debug, Default, Clone, Copy, PartialEq, Eq, Structural)]
pub enum Symbol {
    #[default]
    Dot,
    Hashtag,
}

/// The symbol a character names.
pub open spec fn spec_symbol(c: char) -> Symbol {
    if c == '#' {
        Symbol::Hashtag
    } else {
        Symbol::Dot
    }
}

impl Symbol {
    /// Reads one map cell; any other character is invalid input.
    pub fn from_char(c: char) -> (r: Symbol)
        requires
            c == '.' || c == '#',
        ensures
            r == spec_symbol(c),
    {
        match c {
            '.' => Symbol::Dot,
            '#' => Symbol::Hashtag,
            _ => Symbol::Dot,
        }
    }

    pub fn is_dot(symbol: &Symbol) -> (r: bool)
        ensures
            r == (symbol is Dot),
    {
        match symbol {
            Symbol::Dot => true,
            Symbol::Hashtag => false,
        }
    }
}

/// A position on the expanded map.
pub struct Coordinate {
    pub x: usize,
    pub y: usize,
}

impl Coordinate {
    /// The walking distance between two positions.
    pub fn manhatten_distance(&self, other: &Coordinate) -> (r: usize)
        requires
            self.x <= i32::MAX,
            self.y <= i32::MAX,
            other.x <= i32::MAX,
            other.y <= i32::MAX,
            (if self.x >= other.x {
                self.x - other.x
            } else {
                other.x - self.x
            }) + (if self.y >= other.y {
                self.y - other.y
            } else {
                other.y - self.y
            }) <= i32::MAX,
        ensures
            r == (if self.x >= other.x {
                self.x - other.x
            } else {
                other.x - self.x
            }) + (if self.y >= other.y {
                self.y - other.y
            } else {
                other.y - self.y
            }),
    {
        let x_dist = if self.x >= other.x {
            self.x - other.x
        } else {
            other.x - self.x
        };
        let y_dist = if self.y >= other.y {
            self.y - other.y
        } else {
            other.y - self.y
        };
        x_dist + y_dist
    }
}


/// The cells a text line declares.
pub open spec fn row_syms(line: Seq<char>) -> Seq<Symbol> {
    Seq::new(line.len(), |j: int| spec_symbol(line[j]))
}

/// The whole map a text declares, row by row.
pub open spec fn map_syms(ls: Seq<Seq<char>>) -> Seq<Seq<Symbol>> {
    Seq::new(ls.len(), |i: int| row_syms(ls[i]))
}

pub open spec fn row_empty(row: Seq<Symbol>) -> bool {
    forall|j: int| 0 <= j < row.len() ==> (#[trigger] row[j]) is Dot
}

pub open spec fn col_empty(g: Seq<Seq<Symbol>>, j: int) -> bool {
    forall|i: int| 0 <= i < g.len() ==> (#[trigger] g[i])[j] is Dot
}

/// One row with every cell in an empty column doubled, from column `j` on.
pub open spec fn cols_exp_from(row: Seq<Symbol>, g: Seq<Seq<Symbol>>, j: int) -> Seq<Symbol>
    decreases row.len() - j,
{
    if j < 0 || j >= row.len() {
        Seq::empty()
    } else {
        (if col_empty(g, j) {
            seq![row[j], row[j]]
        } else {
            seq![row[j]]
        }) + cols_exp_from(row, g, j + 1)
    }
}

pub open spec fn cols_exp(row: Seq<Symbol>, g: Seq<Seq<Symbol>>) -> Seq<Symbol> {
    cols_exp_from(row, g, 0)
}

/// The map from row `i` on with every empty row doubled and every cell in
/// an empty column doubled.
pub open spec fn rows_exp_from(g: Seq<Seq<Symbol>>, i: int) -> Seq<Seq<Symbol>>
    decreases g.len() - i,
{
    if i < 0 || i >= g.len() {
        Seq::empty()
    } else {
        (if row_empty(g[i]) {
            seq![cols_exp(g[i], g), cols_exp(g[i], g)]
        } else {
            seq![cols_exp(g[i], g)]
        }) + rows_exp_from(g, i + 1)
    }
}

/// The expanded map: every all-Dot row and every all-Dot column doubled.
pub open spec fn expand_map(g: Seq<Seq<Symbol>>) -> Seq<Seq<Symbol>> {
    rows_exp_from(g, 0)
}

/// The galaxies of one row, in column order.
pub open spec fn gal_row(row: Seq<Symbol>, i: int, j: int) -> Seq<(int, int)>
    decreases row.len() - j,
{
    if j < 0 || j >= row.len() {
        Seq::empty()
    } else {
        (if row[j] is Hashtag {
            seq![(i, j)]
        } else {
            Seq::empty()
        }) + gal_row(row, i, j + 1)
    }
}

/// The galaxies of the map from row `i` on, in row-major order.
pub open spec fn gals_from(g: Seq<Seq<Symbol>>, i: int) -> Seq<(int, int)>
    decreases g.len() - i,
{
    if i < 0 || i >= g.len() {
        Seq::empty()
    } else {
        gal_row(g[i], i, 0) + gals_from(g, i + 1)
    }
}

/// The walking distance between two positions.
pub open spec fn spec_dist(a: (int, int), b: (int, int)) -> int {
    (if a.0 >= b.0 {
        a.0 - b.0
    } else {
        b.0 - a.0
    }) + (if a.1 >= b.1 {
        a.1 - b.1
    } else {
        b.1 - a.1
    })
}

/// The distances from galaxy `i` to every later galaxy from `j` on.
pub open spec fn row_pairs(gs: Seq<(int, int)>, i: int, j: int) -> int
    decreases gs.len() - j,
{
    if j < 0 || j >= gs.len() {
        0
    } else {
        spec_dist(gs[i], gs[j]) + row_pairs(gs, i, j + 1)
    }
}

/// The sum of the distances of every unordered galaxy pair from `i` on.
pub open spec fn pair_sum(gs: Seq<(int, int)>, i: int) -> int
    decreases gs.len() - i,
{
    if i < 0 || i >= gs.len() {
        0
    } else {
        row_pairs(gs, i, i + 1) + pair_sum(gs, i + 1)
    }
}

pub proof fn lemma_row_pairs_nonneg(gs: Seq<(int, int)>, i: int, j: int)
    ensures
        row_pairs(gs, i, j) >= 0,
    decreases gs.len() - j,
{
    if 0 <= j < gs.len() {
        lemma_row_pairs_nonneg(gs, i, j + 1);
    }
}

pub proof fn lemma_pair_sum_nonneg(gs: Seq<(int, int)>, i: int)
    ensures
        pair_sum(gs, i) >= 0,
    decreases gs.len() - i,
{
    if 0 <= i < gs.len() {
        lemma_row_pairs_nonneg(gs, i, i + 1);
        lemma_pair_sum_nonneg(gs, i + 1);
    }
}

/// Every galaxy of a map lies within the map's bounds.
pub proof fn lemma_gals_bounds(g: Seq<Seq<Symbol>>, i: int, wide: int)
    requires
        0 <= i,
        forall|z: int| 0 <= z < g.len() ==> (#[trigger] g[z]).len() <= wide,
    ensures
        forall|k: int|
            0 <= k < gals_from(g, i).len() ==> 0 <= (#[trigger] gals_from(g, i)[k]).0 < g.len()
                && 0 <= gals_from(g, i)[k].1 < wide,
    decreases g.len() - i,
{
    if i < g.len() {
        lemma_gals_bounds(g, i + 1, wide);
        lemma_gal_row_bounds(g[i], i, 0);
        assert forall|k: int| 0 <= k < gals_from(g, i).len() implies 0 <= (
        #[trigger] gals_from(g, i)[k]).0 < g.len() && 0 <= gals_from(g, i)[k].1 < wide by {
            let head = gal_row(g[i], i, 0);
            if k < head.len() {
                assert(gals_from(g, i)[k] == head[k]);
            } else {
                assert(gals_from(g, i)[k] == gals_from(g, i + 1)[k - head.len()]);
            }
        }
    }
}

pub proof fn lemma_gal_row_bounds(row: Seq<Symbol>, i: int, j: int)
    requires
        0 <= j,
    ensures
        forall|k: int|
            0 <= k < gal_row(row, i, j).len() ==> (#[trigger] gal_row(row, i, j)[k]).0 == i && j
                <= gal_row(row, i, j)[k].1 < row.len(),
    decreases row.len() - j,
{
    if j < row.len() {
        lemma_gal_row_bounds(row, i, j + 1);
        let head: Seq<(int, int)> = if row[j] is Hashtag {
            seq![(i, j)]
        } else {
            Seq::empty()
        };
        assert forall|k: int| 0 <= k < gal_row(row, i, j).len() implies (#[trigger] gal_row(
            row,
            i,
            j,
        )[k]).0 == i && j <= gal_row(row, i, j)[k].1 < row.len() by {
            if k < head.len() {
                assert(gal_row(row, i, j)[k] == head[k]);
            } else {
                assert(gal_row(row, i, j)[k] == gal_row(row, i, j + 1)[k - head.len()]);
            }
        }
    }
}

/// The view of a position vector.
pub open spec fn coords_of(s: Seq<Coordinate>) -> Seq<(int, int)> {
    s.map_values(|c: Coordinate| ((c.x as int, c.y as int)))
}

/// The galaxy map as the library holds it: one row of cells per line.
pub struct Sky {
    pub rows: Vec<Vec<Symbol>>,
}

/// The rows of cells a vector of rows carries.
pub open spec fn grid_of(rows: Seq<Vec<Symbol>>) -> Seq<Seq<Symbol>> {
    rows.map_values(|r: Vec<Symbol>| r@)
}

impl Sky {
    pub open spec fn grid(self) -> Seq<Seq<Symbol>> {
        grid_of(self.rows@)
    }

    /// A rectangular map.
    pub open spec fn wf(self) -> bool {
        forall|i: int|
            0 <= i < self.grid().len() ==> (#[trigger] self.grid()[i]).len() == self.grid()[0]
                .len()
    }

    /// The map with every all-Dot row and every all-Dot column doubled.
    pub fn expand(&self) -> (r: Sky)
        requires
            self.wf(),
        ensures
            r.grid() == expand_map(self.grid()),
    {
        let ghost g = self.grid();
        let n = self.rows.len();
        // Which columns hold nothing: judged on the unexpanded map.
        let width = if n == 0 {
            0
        } else {
            self.rows[0].len()
        };
        let mut empty_cols: Vec<bool> = Vec::new();
        let mut j: usize = 0;
        while j < width
            invariant
                0 <= j <= width,
                n == self.rows@.len(),
                g == self.grid(),
                self.wf(),
                n > 0 ==> width == g[0].len(),
                n == 0 ==> width == 0,
                empty_cols@.len() == j,
                forall|z: int| 0 <= z < j ==> (#[trigger] empty_cols@[z]) == col_empty(g, z),
            decreases width - j,
        {
            let mut e = true;
            let mut i: usize = 0;
            while i < n
                invariant
                    0 <= i <= n,
                    0 <= j < width,
                    n == self.rows@.len(),
                    g == self.grid(),
                    self.wf(),
                    n > 0 ==> width == g[0].len(),
                    e == (forall|z: int| 0 <= z < i ==> (#[trigger] g[z])[j as int] is Dot),
                decreases n - i,
            {
                let row = &self.rows[i];
                proof {
                    assert(g[i as int].len() == g[0].len());
                    assert(row@.len() == width);
                }
                let cell = row[j];
                proof {
                    assert(g[i as int][j as int] == cell);
                }
                if !matches!(cell, Symbol::Dot) {
                    e = false;
                }
                i = i + 1;
            }
            empty_cols.push(e);
            proof {
                assert(e == col_empty(g, j as int)) by {
                    if e {
                        assert(forall|z: int| 0 <= z < n ==> (#[trigger] g[z])[j as int] is Dot);
                    }
                }
            }
            j = j + 1;
        }
        // Build the expanded rows.
        let mut out: Vec<Vec<Symbol>> = Vec::new();
        let mut i: usize = 0;
        proof {
            assert(grid_of(out@) + rows_exp_from(g, 0) =~= rows_exp_from(g, 0));
        }
        while i < n
            invariant
                0 <= i <= n,
                n == self.rows@.len(),
                g == self.grid(),
                self.wf(),
                n > 0 ==> width == g[0].len(),
                empty_cols@.len() == width,
                forall|z: int| 0 <= z < width ==> (#[trigger] empty_cols@[z]) == col_empty(g, z),
                grid_of(out@) + rows_exp_from(g, i as int) =~= rows_exp_from(g, 0),
            decreases n - i,
        {
            let src = &self.rows[i];
            proof {
                assert(g[i as int].len() == g[0].len());
            }
            let m = src.len();
            let ghost srow = g[i as int];
            let mut built: Vec<Symbol> = Vec::new();
            let mut jj: usize = 0;
            let mut all_dots = true;
            proof {
                assert(built@ + cols_exp_from(srow, g, 0) =~= cols_exp_from(srow, g, 0));
            }
            while jj < m
                invariant
                    0 <= jj <= m,
                    m == src@.len(),
                    src@ == self.rows@[i as int]@,
                    0 <= i < n,
                    n == self.rows@.len(),
                    g == self.grid(),
                    srow == g[i as int],
                    m == width,
                    empty_cols@.len() == width,
                    forall|z: int|
                        0 <= z < width ==> (#[trigger] empty_cols@[z]) == col_empty(g, z),
                    built@ + cols_exp_from(srow, g, jj as int) =~= cols_exp_from(srow, g, 0),
                    all_dots == (forall|z: int|
                        0 <= z < jj ==> (#[trigger] srow[z]) is Dot),
                decreases m - jj,
            {
                let cell = src[jj];
                proof {
                    assert(srow[jj as int] == cell);
                    assert(cols_exp_from(srow, g, jj as int) == (if col_empty(g, jj as int) {
                        seq![srow[jj as int], srow[jj as int]]
                    } else {
                        seq![srow[jj as int]]
                    }) + cols_exp_from(srow, g, jj as int + 1));
                }
                built.push(cell);
                if empty_cols[jj] {
                    built.push(cell);
                }
                if !matches!(cell, Symbol::Dot) {
                    all_dots = false;
                }
                jj = jj + 1;
            }
            proof {
                assert(cols_exp_from(srow, g, m as int) =~= Seq::<Symbol>::empty());
                assert(built@ =~= cols_exp(srow, g));
                assert(all_dots == row_empty(srow));
                assert(rows_exp_from(g, i as int) == (if row_empty(srow) {
                    seq![cols_exp(srow, g), cols_exp(srow, g)]
                } else {
                    seq![cols_exp(srow, g)]
                }) + rows_exp_from(g, i as int + 1));
            }
            let ghost old_out = out@;
            if all_dots {
                let copy = clone_row(&built);
                out.push(built);
                out.push(copy);
                proof {
                    assert(grid_of(out@) =~= grid_of(old_out) + seq![
                        cols_exp(srow, g),
                        cols_exp(srow, g),
                    ]);
                }
            } else {
                out.push(built);
                proof {
                    assert(grid_of(out@) =~= grid_of(old_out) + seq![cols_exp(srow, g)]);
                }
            }
            i = i + 1;
        }
        proof {
            assert(rows_exp_from(g, n as int) =~= Seq::<Seq<Symbol>>::empty());
        }
        let r = Sky { rows: out };
        proof {
            assert(r.grid() =~= expand_map(g));
        }
        r
    }

    /// The positions of all galaxies, row by row.
    pub fn galaxies(&self) -> (r: Vec<Coordinate>)
        ensures
            coords_of(r@) == gals_from(self.grid(), 0),
    {
        let ghost g = self.grid();
        let n = self.rows.len();
        let mut out: Vec<Coordinate> = Vec::new();
        let mut i: usize = 0;
        proof {
            assert(coords_of(out@) + gals_from(g, 0) =~= gals_from(g, 0));
        }
        while i < n
            invariant
                0 <= i <= n,
                n == self.rows@.len(),
                g == self.grid(),
                coords_of(out@) + gals_from(g, i as int) =~= gals_from(g, 0),
            decreases n - i,
        {
            let row = &self.rows[i];
            let m = row.len();
            let ghost srow = g[i as int];
            let mut j: usize = 0;
            proof {
                assert(gal_row(srow, i as int, 0) + gals_from(g, i as int + 1) =~= gals_from(
                    g,
                    i as int,
                ));
            }
            while j < m
                invariant
                    0 <= j <= m,
                    m == row@.len(),
                    row@ == self.rows@[i as int]@,
                    0 <= i < n,
                    n == self.rows@.len(),
                    g == self.grid(),
                    srow == g[i as int],
                    coords_of(out@) + gal_row(srow, i as int, j as int) + gals_from(
                        g,
                        i as int + 1,
                    ) =~= gals_from(g, 0),
                decreases m - j,
            {
                let cell = row[j];
                proof {
                    assert(srow[j as int] == cell);
                    assert(gal_row(srow, i as int, j as int) == (if srow[j as int]
                        is Hashtag {
                        seq![(i as int, j as int)]
                    } else {
                        Seq::<(int, int)>::empty()
                    }) + gal_row(srow, i as int, j as int + 1));
                }
                if matches!(cell, Symbol::Hashtag) {
                    let ghost old_out = out@;
                    out.push(Coordinate { x: i, y: j });
                    proof {
                        assert(coords_of(out@) =~= coords_of(old_out).push(
                            (i as int, j as int),
                        ));
                        assert(coords_of(out@) + gal_row(srow, i as int, j as int + 1)
                            + gals_from(g, i as int + 1) =~= gals_from(g, 0));
                    }
                } else {
                    proof {
                        assert(coords_of(out@) + gal_row(srow, i as int, j as int + 1)
                            + gals_from(g, i as int + 1) =~= gals_from(g, 0));
                    }
                }
                j = j + 1;
            }
            proof {
                assert(gal_row(srow, i as int, m as int) =~= Seq::<(int, int)>::empty());
                assert(coords_of(out@) + gals_from(g, i as int + 1) =~= gals_from(g, 0));
            }
            i = i + 1;
        }
        proof {
            assert(gals_from(g, n as int) =~= Seq::<(int, int)>::empty());
            assert(coords_of(out@) =~= gals_from(g, 0));
        }
        out
    }
}

/// An identical row.
fn clone_row(row: &Vec<Symbol>) -> (r: Vec<Symbol>)
    ensures
        r@ == row@,
{
    let mut r: Vec<Symbol> = Vec::new();
    let mut i: usize = 0;
    while i < row.len()
        invariant
            0 <= i <= row@.len(),
            r@ == row@.take(i as int),
        decreases row@.len() - i,
    {
        r.push(row[i]);
        proof {
            assert(r@ =~= row@.take(i + 1));
        }
        i = i + 1;
    }
    proof {
        assert(r@ =~= row@);
    }
    r
}

/// The sum of the walking distances of every unordered pair of positions.
pub fn sum_of_distances(gs: &Vec<Coordinate>) -> (r: u32)
    requires
        forall|k: int|
            0 <= k < gs@.len() ==> (#[trigger] gs@[k]).x <= 0x2000_0000 && gs@[k].y
                <= 0x2000_0000,
        pair_sum(coords_of(gs@), 0) <= u32::MAX,
    ensures
        r as int == pair_sum(coords_of(gs@), 0),
{
    let ghost c = coords_of(gs@);
    let n = gs.len();
    let mut sum: u32 = 0;
    let mut i: usize = 0;
    proof {
        lemma_pair_sum_nonneg(c, 0);
    }
    while i < n
        invariant
            0 <= i <= n,
            n == gs@.len(),
            c == coords_of(gs@),
            forall|k: int|
                0 <= k < gs@.len() ==> (#[trigger] gs@[k]).x <= 0x2000_0000 && gs@[k].y
                    <= 0x2000_0000,
            pair_sum(c, 0) <= u32::MAX,
            sum as int + pair_sum(c, i as int) == pair_sum(c, 0),
            sum as int >= 0,
        decreases n - i,
    {
        let mut j: usize = i + 1;
        proof {
            assert(pair_sum(c, i as int) == row_pairs(c, i as int, i as int + 1) + pair_sum(
                c,
                i as int + 1,
            ));
        }
        while j < n
            invariant
                i < j <= n,
                0 <= i < n,
                n == gs@.len(),
                c == coords_of(gs@),
                forall|k: int|
                    0 <= k < gs@.len() ==> (#[trigger] gs@[k]).x <= 0x2000_0000 && gs@[k].y
                        <= 0x2000_0000,
                pair_sum(c, 0) <= u32::MAX,
                sum as int + row_pairs(c, i as int, j as int) + pair_sum(c, i as int + 1)
                    == pair_sum(c, 0),
                sum as int >= 0,
            decreases n - j,
        {
            proof {
                assert(c[i as int] == (gs@[i as int].x as int, gs@[i as int].y as int));
                assert(c[j as int] == (gs@[j as int].x as int, gs@[j as int].y as int));
                assert(row_pairs(c, i as int, j as int) == spec_dist(c[i as int], c[j as int])
                    + row_pairs(c, i as int, j as int + 1));
                lemma_row_pairs_nonneg(c, i as int, j as int + 1);
                lemma_pair_sum_nonneg(c, i as int + 1);
            }
            let d = gs[i].manhatten_distance(&gs[j]);
            sum = sum + (d as u32);
            j = j + 1;
        }
        proof {
            assert(row_pairs(c, i as int, n as int) == 0);
        }
        i = i + 1;
    }
    proof {
        assert(pair_sum(c, n as int) == 0);
    }
    sum
}

/// What a well-formed map text must look like: non-empty lines of map
/// cells, all of one width, small enough for the distance arithmetic, with
/// an expanded pairwise distance sum that fits the result type.
pub open spec fn sky_ok(ls: Seq<Seq<char>>) -> bool {
    &&& forall|i: int, j: int|
        0 <= i < ls.len() && 0 <= j < ls[i].len() ==> (#[trigger] ls[i][j]) == '.' || ls[i][j]
            == '#'
    &&& forall|i: int| 0 <= i < ls.len() ==> (#[trigger] ls[i]).len() == ls[0].len()
    &&& ls.len() > 0 ==> ls[0].len() > 0
    &&& ls.len() <= 0x1000_0000
    &&& ls.len() > 0 ==> ls[0].len() <= 0x1000_0000
    &&& pair_sum(gals_from(expand_map(map_syms(ls)), 0), 0) <= u32::MAX
}

/// Reads the map text into the library's own rows of cells.
pub fn parse_sky(input: &str) -> (r: Sky)
    requires
        sky_ok(spec_lines(input@)),
    ensures
        r.grid() == map_syms(spec_lines(input@)),
{
    let cs = chars_of(input);
    let ls = lines_of(&cs);
    let ghost lv = crate::text::views(ls@);
    let n = ls.len();
    let mut rows: Vec<Vec<Symbol>> = Vec::new();
    let mut i: usize = 0;
    while i < n
        invariant
            0 <= i <= n,
            n == ls@.len(),
            n == lv.len(),
            lv == crate::text::views(ls@),
            sky_ok(lv),
            rows@.len() == i,
            forall|z: int|
                0 <= z < i ==> (#[trigger] rows@[z])@ == row_syms(lv[z]),
        decreases n - i,
    {
        let line = &ls[i];
        let m = line.len();
        let ghost line_v = lv[i as int];
        let mut row: Vec<Symbol> = Vec::new();
        let mut j: usize = 0;
        proof {
            assert(line@ == line_v);
        }
        while j < m
            invariant
                0 <= j <= m,
                m == line@.len(),
                line@ == line_v,
                line_v == lv[i as int],
                0 <= i < n,
                n == lv.len(),
                sky_ok(lv),
                row@.len() == j,
                forall|z: int| 0 <= z < j ==> (#[trigger] row@[z]) == spec_symbol(line_v[z]),
            decreases m - j,
        {
            let ch = line[j];
            proof {
                assert(lv[i as int][j as int] == ch);
                assert(ch == '.' || ch == '#');
            }
            row.push(Symbol::from_char(ch));
            j = j + 1;
        }
        proof {
            assert(row@ =~= row_syms(line_v));
        }
        rows.push(row);
        i = i + 1;
    }
    let r = Sky { rows };
    proof {
        assert(r.grid() =~= map_syms(lv));
    }
    r
}


/// Each expanded row is some original row with its empty columns doubled.
pub proof fn lemma_rows_exp_elems(g: Seq<Seq<Symbol>>, i: int)
    requires
        0 <= i,
    ensures
        i <= g.len() ==> rows_exp_from(g, i).len() <= 2 * (g.len() - i),
        i > g.len() ==> rows_exp_from(g, i).len() == 0,
        forall|k: int|
            0 <= k < rows_exp_from(g, i).len() ==> exists|z: int|
                i <= z < g.len() && #[trigger] rows_exp_from(g, i)[k] == cols_exp(g[z], g),
    decreases g.len() - i,
{
    if i < g.len() {
        lemma_rows_exp_elems(g, i + 1);
        let head: Seq<Seq<Symbol>> = if row_empty(g[i]) {
            seq![cols_exp(g[i], g), cols_exp(g[i], g)]
        } else {
            seq![cols_exp(g[i], g)]
        };
        assert forall|k: int| 0 <= k < rows_exp_from(g, i).len() implies exists|z: int|
            i <= z < g.len() && #[trigger] rows_exp_from(g, i)[k] == cols_exp(g[z], g) by {
            if k < head.len() {
                assert(rows_exp_from(g, i)[k] == cols_exp(g[i], g));
            } else {
                assert(rows_exp_from(g, i)[k] == rows_exp_from(g, i + 1)[k - head.len()]);
                let z = choose|z: int|
                    i + 1 <= z < g.len() && #[trigger] rows_exp_from(g, i + 1)[k - head.len()]
                        == cols_exp(g[z], g);
                assert(rows_exp_from(g, i)[k] == cols_exp(g[z], g));
            }
        }
    }
}

/// Doubling columns at most doubles a row's width.
pub proof fn lemma_cols_exp_len(row: Seq<Symbol>, g: Seq<Seq<Symbol>>, j: int)
    requires
        0 <= j,
    ensures
        cols_exp_from(row, g, j).len() <= 2 * (row.len() - j) || row.len() < j,
        j <= row.len() ==> cols_exp_from(row, g, j).len() <= 2 * (row.len() - j),
    decreases row.len() - j,
{
    if j < row.len() {
        lemma_cols_exp_len(row, g, j + 1);
    }
}

/// The minimum reachable answer of the first part: parse the map, expand
/// it, and sum the walking distances of every pair of galaxies.
pub fn part_one(input: &str) -> (r: u32)
    requires
        sky_ok(spec_lines(input@)),
    ensures
        r as int == pair_sum(gals_from(expand_map(map_syms(spec_lines(input@))), 0), 0),
{
    let ghost lv = spec_lines(input@);
    let sky = parse_sky(input);
    proof {
        assert forall|i: int|
            0 <= i < sky.grid().len() implies (#[trigger] sky.grid()[i]).len() == sky.grid()[0]
            .len() by {
            assert(sky.grid()[i] == row_syms(lv[i]));
            assert(lv[i].len() == lv[0].len());
        }
    }
    let expanded = sky.expand();
    let gs = expanded.galaxies();
    proof {
        let g = map_syms(lv);
        let eg = expand_map(g);
        lemma_rows_exp_elems(g, 0);
        let wide: int = if g.len() > 0 {
            g[0].len() as int
        } else {
            0int
        };
        assert forall|z: int| 0 <= z < eg.len() implies (#[trigger] eg[z]).len() <= 2
            * wide by {
            let w = choose|w: int| 0 <= w < g.len() && #[trigger] eg[z] == cols_exp(g[w], g);
            lemma_cols_exp_len(g[w], g, 0);
            assert(g[w].len() == wide);
        }
        lemma_gals_bounds(eg, 0, 2 * wide);
        assert(coords_of(gs@) == gals_from(eg, 0));
        assert forall|k: int|
            0 <= k < gs@.len() implies (#[trigger] gs@[k]).x <= 0x2000_0000 && gs@[k].y
            <= 0x2000_0000 by {
            assert(coords_of(gs@)[k] == (gs@[k].x as int, gs@[k].y as int));
            assert(0 <= gals_from(eg, 0)[k].0 < eg.len());
            assert(eg.len() <= 2 * g.len());
            assert(0 <= gals_from(eg, 0)[k].1 < 2 * wide);
        }
    }
    sum_of_distances(&gs)
}

/// This puzzle's second half was never taken up; it reports nothing.
pub fn part_two(input: &str) -> (r: u32)
    ensures
        r == 0,
{
    let _ = input;
    0
}

} // verus!
