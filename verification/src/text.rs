//! Verified text utilities shared by the solvers: line splitting, token
//! splitting, digit runs and number parsing, specified over character
//! sequences exactly as Rust's own string operations behave.

use vstd::prelude::*;

verus! {

/// The first position `>= pos` holding `sep`, or the length when none does.
pub open spec fn next_sep(s: Seq<char>, pos: int, sep: char) -> int
    decreases s.len() - pos,
{
    if pos < 0 {
        next_sep(s, 0, sep)
    } else if pos >= s.len() {
        s.len() as int
    } else if s[pos] == sep {
        pos
    } else {
        next_sep(s, pos + 1, sep)
    }
}

pub proof fn lemma_next_sep(s: Seq<char>, pos: int, sep: char)
    requires
        0 <= pos <= s.len(),
    ensures
        pos <= next_sep(s, pos, sep) <= s.len(),
        forall|j: int| pos <= j < next_sep(s, pos, sep) ==> s[j] != sep,
        next_sep(s, pos, sep) < s.len() ==> s[next_sep(s, pos, sep)] == sep,
    decreases s.len() - pos,
{
    if pos < s.len() && s[pos] != sep {
        lemma_next_sep(s, pos + 1, sep);
    }
}

/// A separator at `i`, none earlier from `pos`: the next separator is `i`.
pub proof fn lemma_next_sep_exact(s: Seq<char>, pos: int, i: int, sep: char)
    requires
        0 <= pos <= i <= s.len(),
        forall|j: int| pos <= j < i ==> s[j] != sep,
        i < s.len() ==> s[i] == sep,
    ensures
        next_sep(s, pos, sep) == if i < s.len() {
            i
        } else {
            s.len() as int
        },
    decreases i - pos,
{
    if pos < i {
        lemma_next_sep_exact(s, pos + 1, i, sep);
    }
}

/// The lines of `s[pos..]`, split at `'\n'`, each stripped of one trailing
/// `'\r'` that preceded the newline; a final newline ends the last line
/// rather than opening an empty one.
pub open spec fn lines_from(s: Seq<char>, pos: int) -> Seq<Seq<char>>
    decreases s.len() - pos,
    when 0 <= pos
    via lines_from_decreases
{
    if pos >= s.len() {
        Seq::empty()
    } else {
        let i = next_sep(s, pos, '\n');
        if i >= s.len() {
            seq![s.subrange(pos, s.len() as int)]
        } else {
            let cut = if i > pos && s[i - 1] == '\r' {
                i - 1
            } else {
                i
            };
            seq![s.subrange(pos, cut)] + lines_from(s, i + 1)
        }
    }
}

#[via_fn]
proof fn lines_from_decreases(s: Seq<char>, pos: int) {
    if 0 <= pos < s.len() {
        lemma_next_sep(s, pos, '\n');
    }
}

/// The lines of `s`, as `str::lines` yields them.
pub open spec fn spec_lines(s: Seq<char>) -> Seq<Seq<char>> {
    lines_from(s, 0)
}

/// The pieces of `s[pos..]` between occurrences of `sep`, empty pieces
/// included, as `str::split` yields them.
pub open spec fn split_from(s: Seq<char>, pos: int, sep: char) -> Seq<Seq<char>>
    decreases s.len() - pos,
    when 0 <= pos
    via split_from_decreases
{
    if pos > s.len() {
        Seq::empty()
    } else {
        let i = next_sep(s, pos, sep);
        if i >= s.len() {
            seq![s.subrange(pos, s.len() as int)]
        } else {
            seq![s.subrange(pos, i)] + split_from(s, i + 1, sep)
        }
    }
}

#[via_fn]
proof fn split_from_decreases(s: Seq<char>, pos: int, sep: char) {
    if 0 <= pos <= s.len() {
        lemma_next_sep(s, pos, sep);
    }
}

/// The pieces of `s` between occurrences of `sep`.
pub open spec fn spec_split(s: Seq<char>, sep: char) -> Seq<Seq<char>> {
    split_from(s, 0, sep)
}

pub open spec fn is_digit(c: char) -> bool {
    '0' <= c <= '9'
}

pub open spec fn digit_val(c: char) -> int {
    c as int - '0' as int
}

pub open spec fn all_digits(s: Seq<char>) -> bool {
    forall|i: int| 0 <= i < s.len() ==> is_digit(#[trigger] s[i])
}

/// The numeric value of a digit string, most significant digit first.
pub open spec fn digits_val(s: Seq<char>) -> int
    decreases s.len(),
{
    if s.len() == 0 {
        0
    } else {
        digits_val(s.drop_last()) * 10 + digit_val(s.last())
    }
}

pub proof fn lemma_digits_val_nonneg(s: Seq<char>)
    requires
        all_digits(s),
    ensures
        digits_val(s) >= 0,
    decreases s.len(),
{
    if s.len() > 0 {
        assert(all_digits(s.drop_last()));
        lemma_digits_val_nonneg(s.drop_last());
    }
}

/// The value of a digit-string prefix never exceeds the whole string's value.
pub proof fn lemma_digits_val_prefix(s: Seq<char>, k: int)
    requires
        all_digits(s),
        0 <= k <= s.len(),
    ensures
        digits_val(s.subrange(0, k)) <= digits_val(s),
    decreases s.len() - k,
{
    if k < s.len() {
        lemma_digits_val_prefix(s, k + 1);
        let p = s.subrange(0, k + 1);
        assert(p.drop_last() =~= s.subrange(0, k));
        assert(all_digits(s.subrange(0, k)));
        lemma_digits_val_nonneg(s.subrange(0, k));
        assert(digits_val(s.subrange(0, k)) <= digits_val(p));
    } else {
        assert(s.subrange(0, k) =~= s);
    }
}

/// The digits of a token after an optional leading `'+'`.
pub open spec fn unsigned_body(s: Seq<char>) -> Seq<char> {
    if s.len() > 0 && s[0] == '+' {
        s.subrange(1, s.len() as int)
    } else {
        s
    }
}

/// What `str::parse::<u64>` returns on this token.
pub open spec fn spec_parse_u64(s: Seq<char>) -> Option<u64> {
    let d = unsigned_body(s);
    if d.len() > 0 && all_digits(d) && digits_val(d) <= u64::MAX {
        Some(digits_val(d) as u64)
    } else {
        None
    }
}

/// What `str::parse::<u32>` returns on this token.
pub open spec fn spec_parse_u32(s: Seq<char>) -> Option<u32> {
    let d = unsigned_body(s);
    if d.len() > 0 && all_digits(d) && digits_val(d) <= u32::MAX {
        Some(digits_val(d) as u32)
    } else {
        None
    }
}

/// The characters of `s`, as one vector.
pub fn chars_of(s: &str) -> (v: Vec<char>)
    ensures
        v@ == s@,
{
    let n = s.unicode_len();
    let mut v: Vec<char> = Vec::new();
    let mut i: usize = 0;
    while i < n
        invariant
            0 <= i <= n,
            n == s@.len(),
            v@ == s@.subrange(0, i as int),
        decreases n - i,
    {
        let c = s.get_char(i);
        v.push(c);
        proof {
            assert(v@ =~= s@.subrange(0, i + 1));
        }
        i = i + 1;
    }
    proof {
        assert(v@ =~= s@);
    }
    v
}

/// Relies on `String`'s `FromIterator<char>`: collecting a sequence of
/// characters yields a string holding exactly those characters.
#[verifier::external_body]
pub(crate) fn string_of(v: &Vec<char>) -> (r: String)
    ensures
        r@ == v@,
{
    v.iter().collect()
}

/// The view of a vector of character vectors, line by line.
pub open spec fn views(ls: Seq<Vec<char>>) -> Seq<Seq<char>> {
    ls.map_values(|l: Vec<char>| l@)
}

/// Splits into lines exactly as `str::lines` does.
pub fn lines_of(s: &Vec<char>) -> (r: Vec<Vec<char>>)
    ensures
        views(r@) == spec_lines(s@),
{
    let n = s.len();
    let mut r: Vec<Vec<char>> = Vec::new();
    let mut start: usize = 0;
    let mut i: usize = 0;
    proof {
        assert(views(r@) =~= Seq::<Seq<char>>::empty());
    }
    while i < n
        invariant
            0 <= start <= i <= n,
            n == s@.len(),
            forall|j: int| start <= j < i ==> s@[j] != '\n',
            spec_lines(s@) == views(r@) + lines_from(s@, start as int),
        decreases n - i,
    {
        if s[i] == '\n' {
            let cut = if i > start && s[i - 1] == '\r' {
                i - 1
            } else {
                i
            };
            let mut line: Vec<char> = Vec::new();
            let mut j: usize = start;
            while j < cut
                invariant
                    start <= j <= cut <= n,
                    n == s@.len(),
                    line@ == s@.subrange(start as int, j as int),
                decreases cut - j,
            {
                line.push(s[j]);
                proof {
                    assert(line@ =~= s@.subrange(start as int, j + 1));
                }
                j = j + 1;
            }
            let ghost old_r = r@;
            r.push(line);
            proof {
                lemma_next_sep_exact(s@, start as int, i as int, '\n');
                assert(lines_from(s@, start as int) == seq![s@.subrange(start as int, cut as int)]
                    + lines_from(s@, i + 1));
                assert(views(r@) =~= views(old_r).push(line@));
                assert(views(r@) + lines_from(s@, i + 1) =~= views(old_r) + lines_from(
                    s@,
                    start as int,
                ));
            }
            start = i + 1;
        }
        i = i + 1;
    }
    if start < n {
        let mut line: Vec<char> = Vec::new();
        let mut j: usize = start;
        while j < n
            invariant
                start <= j <= n,
                n == s@.len(),
                line@ == s@.subrange(start as int, j as int),
            decreases n - j,
        {
            line.push(s[j]);
            proof {
                assert(line@ =~= s@.subrange(start as int, j + 1));
            }
            j = j + 1;
        }
        let ghost old_r = r@;
        r.push(line);
        proof {
            lemma_next_sep_exact(s@, start as int, n as int, '\n');
            assert(lines_from(s@, start as int) == seq![s@.subrange(start as int, n as int)]);
            assert(views(r@) =~= views(old_r).push(line@));
            assert(views(r@) =~= views(old_r) + lines_from(s@, start as int));
        }
    } else {
        proof {
            assert(lines_from(s@, start as int) =~= Seq::<Seq<char>>::empty());
            assert(views(r@) =~= views(r@) + lines_from(s@, start as int));
        }
    }
    r
}

/// Splits on a separator exactly as `str::split` does, keeping empty pieces.
pub fn split_on(s: &Vec<char>, sep: char) -> (r: Vec<Vec<char>>)
    requires
        sep != '\n',
    ensures
        views(r@) == spec_split(s@, sep),
{
    let n = s.len();
    let mut r: Vec<Vec<char>> = Vec::new();
    let mut start: usize = 0;
    let mut i: usize = 0;
    proof {
        assert(views(r@) =~= Seq::<Seq<char>>::empty());
    }
    while i < n
        invariant
            0 <= start <= i <= n,
            n == s@.len(),
            forall|j: int| start <= j < i ==> s@[j] != sep,
            spec_split(s@, sep) == views(r@) + split_from(s@, start as int, sep),
        decreases n - i,
    {
        if s[i] == sep {
            let mut piece: Vec<char> = Vec::new();
            let mut j: usize = start;
            while j < i
                invariant
                    start <= j <= i <= n,
                    n == s@.len(),
                    piece@ == s@.subrange(start as int, j as int),
                decreases i - j,
            {
                piece.push(s[j]);
                proof {
                    assert(piece@ =~= s@.subrange(start as int, j + 1));
                }
                j = j + 1;
            }
            let ghost old_r = r@;
            r.push(piece);
            proof {
                lemma_next_sep_exact(s@, start as int, i as int, sep);
                assert(split_from(s@, start as int, sep) == seq![
                    s@.subrange(start as int, i as int),
                ] + split_from(s@, i + 1, sep));
                assert(views(r@) =~= views(old_r).push(piece@));
                assert(views(r@) + split_from(s@, i + 1, sep) =~= views(old_r) + split_from(
                    s@,
                    start as int,
                    sep,
                ));
            }
            start = i + 1;
        }
        i = i + 1;
    }
    let mut piece: Vec<char> = Vec::new();
    let mut j: usize = start;
    while j < n
        invariant
            start <= j <= n,
            n == s@.len(),
            piece@ == s@.subrange(start as int, j as int),
        decreases n - j,
    {
        piece.push(s[j]);
        proof {
            assert(piece@ =~= s@.subrange(start as int, j + 1));
        }
        j = j + 1;
    }
    let ghost old_r = r@;
    r.push(piece);
    proof {
        lemma_next_sep_exact(s@, start as int, n as int, sep);
        assert(split_from(s@, start as int, sep) == seq![s@.subrange(start as int, n as int)]);
        assert(views(r@) =~= views(old_r).push(piece@));
        assert(views(r@) =~= views(old_r) + split_from(s@, start as int, sep));
    }
    r
}

/// Parses an unsigned 64-bit number as `str::parse::<u64>` does: an
/// optional `'+'`, then only digits, rejecting overflow.
pub fn parse_u64(t: &Vec<char>) -> (r: Option<u64>)
    ensures
        r == spec_parse_u64(t@),
{
    let n = t.len();
    let start: usize = if n > 0 && t[0] == '+' {
        1
    } else {
        0
    };
    let ghost d = unsigned_body(t@);
    proof {
        assert(d =~= t@.subrange(start as int, n as int));
    }
    if n == start {
        return None;
    }
    let mut acc: u64 = 0;
    let mut i: usize = start;
    proof {
        assert(d.subrange(0, 0) =~= Seq::<char>::empty());
    }
    while i < n
        invariant
            start <= i <= n,
            n == t@.len(),
            n > start,
            d == unsigned_body(t@),
            d =~= t@.subrange(start as int, n as int),
            all_digits(d.subrange(0, i - start)),
            acc == digits_val(d.subrange(0, i - start)),
        decreases n - i,
    {
        let c = t[i];
        if !(c >= '0' && c <= '9') {
            proof {
                assert(d[i - start] == c);
                assert(!all_digits(d));
            }
            return None;
        }
        let dv: u64 = (c as u32 as u64) - ('0' as u32 as u64);
        let wide: u128 = (acc as u128) * 10 + (dv as u128);
        proof {
            let p = d.subrange(0, i + 1 - start);
            assert(p.drop_last() =~= d.subrange(0, i - start));
            assert(p.last() == c);
            assert(digits_val(p) == acc * 10 + dv);
        }
        if wide > u64::MAX as u128 {
            proof {
                assert(all_digits(d.subrange(0, i + 1 - start)));
                if all_digits(d) {
                    lemma_digits_val_prefix(d, i + 1 - start);
                    assert(digits_val(d) > u64::MAX);
                }
            }
            return None;
        }
        acc = (wide) as u64;
        proof {
            assert(all_digits(d.subrange(0, i + 1 - start)));
        }
        i = i + 1;
    }
    proof {
        assert(d.subrange(0, n - start) =~= d);
        lemma_digits_val_nonneg(d);
    }
    Some(acc)
}

/// What `str::replace` yields: every non-overlapping occurrence of `pat`,
/// scanned left to right, replaced by `rep`.
pub open spec fn spec_replace(s: Seq<char>, pat: Seq<char>, rep: Seq<char>) -> Seq<char>
    decreases s.len(),
    when pat.len() > 0
{
    if s.len() == 0 {
        s
    } else if s.len() >= pat.len() && s.subrange(0, pat.len() as int) == pat {
        rep + spec_replace(s.skip(pat.len() as int), pat, rep)
    } else {
        seq![s[0]] + spec_replace(s.drop_first(), pat, rep)
    }
}

/// True iff `pat` occurs in `s` starting at `i`.
pub fn prefix_matches(s: &Vec<char>, i: usize, pat: &Vec<char>) -> (r: bool)
    requires
        i + pat@.len() <= s@.len(),
    ensures
        r == (s@.subrange(i as int, i + pat@.len()) == pat@),
{
    let plen = pat.len();
    let slen = s.len();
    let mut j: usize = 0;
    while j < plen
        invariant
            0 <= j <= plen,
            plen == pat@.len(),
            slen == s@.len(),
            i + plen <= slen,
            forall|q: int| 0 <= q < j ==> s@[i + q] == pat@[q],
        decreases plen - j,
    {
        let idx = i + j;
        if s[idx] != pat[j] {
            proof {
                assert(s@.subrange(i as int, i + pat@.len())[j as int] != pat@[j as int]);
            }
            return false;
        }
        j = j + 1;
    }
    proof {
        assert(s@.subrange(i as int, i + pat@.len()) =~= pat@);
    }
    true
}

/// Replaces every occurrence of `pat` by `rep`, as `str::replace` does.
pub fn replace_chars(s: &Vec<char>, pat: &Vec<char>, rep: &Vec<char>) -> (r: Vec<char>)
    requires
        pat@.len() > 0,
    ensures
        r@ == spec_replace(s@, pat@, rep@),
{
    let n = s.len();
    let plen = pat.len();
    let mut out: Vec<char> = Vec::new();
    let mut i: usize = 0;
    proof {
        assert(s@.skip(0) =~= s@);
        assert(out@ + spec_replace(s@.skip(0), pat@, rep@) =~= spec_replace(s@, pat@, rep@));
    }
    while i < n
        invariant
            0 <= i <= n,
            n == s@.len(),
            plen == pat@.len(),
            plen > 0,
            spec_replace(s@, pat@, rep@) == out@ + spec_replace(s@.skip(i as int), pat@, rep@),
        decreases n - i,
    {
        let ghost suffix = s@.skip(i as int);
        let matches = n - i >= plen && prefix_matches(s, i, pat);
        proof {
            if matches {
                assert(suffix.subrange(0, plen as int) =~= s@.subrange(i as int, i + plen));
            } else if i + plen <= n {
                assert(suffix.subrange(0, plen as int) =~= s@.subrange(i as int, i + plen));
            }
        }
        if matches {
            let ghost old_out = out@;
            let mut k: usize = 0;
            while k < rep.len()
                invariant
                    0 <= k <= rep@.len(),
                    out@ == old_out + rep@.subrange(0, k as int),
                decreases rep@.len() - k,
            {
                out.push(rep[k]);
                proof {
                    assert(out@ =~= old_out + rep@.subrange(0, k + 1));
                }
                k = k + 1;
            }
            proof {
                assert(rep@.subrange(0, rep@.len() as int) =~= rep@);
                assert(suffix.len() >= plen && suffix.subrange(0, plen as int) == pat@);
                assert(spec_replace(suffix, pat@, rep@) == rep@ + spec_replace(
                    suffix.skip(plen as int),
                    pat@,
                    rep@,
                ));
                assert(suffix.skip(plen as int) =~= s@.skip(i + plen));
                assert(out@ + spec_replace(s@.skip(i + plen), pat@, rep@) =~= old_out + (rep@
                    + spec_replace(s@.skip(i + plen), pat@, rep@)));
            }
            i = i + plen;
        } else {
            let ghost old_out = out@;
            out.push(s[i]);
            proof {
                assert(!(suffix.len() >= plen && suffix.subrange(0, plen as int) == pat@));
                assert(suffix[0] == s@[i as int]);
                assert(spec_replace(suffix, pat@, rep@) == seq![s@[i as int]] + spec_replace(
                    suffix.drop_first(),
                    pat@,
                    rep@,
                ));
                assert(suffix.drop_first() =~= s@.skip(i + 1));
                assert(out@ + spec_replace(s@.skip(i + 1), pat@, rep@) =~= old_out + (seq![
                    s@[i as int],
                ] + spec_replace(s@.skip(i + 1), pat@, rep@)));
            }
            i = i + 1;
        }
    }
    proof {
        assert(s@.skip(n as int) =~= Seq::<char>::empty());
        assert(spec_replace(Seq::<char>::empty(), pat@, rep@) == Seq::<char>::empty());
        assert(out@ =~= out@ + spec_replace(s@.skip(n as int), pat@, rep@));
    }
    out
}

/// Parses an unsigned 32-bit number as `str::parse::<u32>` does.
pub fn parse_u32(t: &Vec<char>) -> (r: Option<u32>)
    ensures
        r == spec_parse_u32(t@),
{
    match parse_u64(t) {
        Some(v) => {
            proof {
                lemma_digits_val_nonneg(unsigned_body(t@));
            }
            if v <= u32::MAX as u64 {
                Some(v as u32)
            } else {
                proof {
                    lemma_digits_val_nonneg(unsigned_body(t@));
                }
                None
            }
        },
        None => {
            proof {
                let d = unsigned_body(t@);
                if d.len() > 0 && all_digits(d) && digits_val(d) <= u32::MAX {
                    assert(digits_val(d) <= u64::MAX);
                }
            }
            None
        },
    }
}

/// The first position `>= pos` holding a digit, or the length when none does.
pub open spec fn next_digit(s: Seq<char>, pos: int) -> int
    decreases s.len() - pos,
{
    if pos < 0 {
        next_digit(s, 0)
    } else if pos >= s.len() {
        s.len() as int
    } else if is_digit(s[pos]) {
        pos
    } else {
        next_digit(s, pos + 1)
    }
}

pub proof fn lemma_next_digit(s: Seq<char>, pos: int)
    requires
        0 <= pos <= s.len(),
    ensures
        pos <= next_digit(s, pos) <= s.len(),
        forall|j: int| pos <= j < next_digit(s, pos) ==> !is_digit(#[trigger] s[j]),
        next_digit(s, pos) < s.len() ==> is_digit(s[next_digit(s, pos)]),
    decreases s.len() - pos,
{
    if pos < s.len() && !is_digit(s[pos]) {
        lemma_next_digit(s, pos + 1);
    }
}

/// The first position `>= pos` holding no digit, or the length.
pub open spec fn next_nondigit(s: Seq<char>, pos: int) -> int
    decreases s.len() - pos,
{
    if pos < 0 {
        next_nondigit(s, 0)
    } else if pos >= s.len() {
        s.len() as int
    } else if !is_digit(s[pos]) {
        pos
    } else {
        next_nondigit(s, pos + 1)
    }
}

pub proof fn lemma_next_nondigit(s: Seq<char>, pos: int)
    requires
        0 <= pos <= s.len(),
    ensures
        pos <= next_nondigit(s, pos) <= s.len(),
        forall|j: int| pos <= j < next_nondigit(s, pos) ==> is_digit(#[trigger] s[j]),
        next_nondigit(s, pos) < s.len() ==> !is_digit(s[next_nondigit(s, pos)]),
    decreases s.len() - pos,
{
    if pos < s.len() && is_digit(s[pos]) {
        lemma_next_nondigit(s, pos + 1);
    }
}

pub proof fn lemma_next_digit_exact(s: Seq<char>, pos: int, i: int)
    requires
        0 <= pos <= i <= s.len(),
        forall|j: int| pos <= j < i ==> !is_digit(#[trigger] s[j]),
        i < s.len() ==> is_digit(s[i]),
    ensures
        next_digit(s, pos) == i,
    decreases i - pos,
{
    if pos < i {
        lemma_next_digit_exact(s, pos + 1, i);
    }
}

pub proof fn lemma_next_nondigit_exact(s: Seq<char>, pos: int, i: int)
    requires
        0 <= pos <= i <= s.len(),
        forall|j: int| pos <= j < i ==> is_digit(#[trigger] s[j]),
        i < s.len() ==> !is_digit(s[i]),
    ensures
        next_nondigit(s, pos) == i,
    decreases i - pos,
{
    if pos < i {
        lemma_next_nondigit_exact(s, pos + 1, i);
    }
}

/// The maximal digit runs of `s[pos..]`, as half-open index ranges.
pub open spec fn runs_from(s: Seq<char>, pos: int) -> Seq<(int, int)>
    decreases s.len() - pos,
    when 0 <= pos
    via runs_from_decreases
{
    if pos >= s.len() {
        Seq::empty()
    } else {
        let d = next_digit(s, pos);
        if d >= s.len() {
            Seq::empty()
        } else {
            let e = next_nondigit(s, d);
            seq![(d, e)] + runs_from(s, e)
        }
    }
}

#[via_fn]
proof fn runs_from_decreases(s: Seq<char>, pos: int) {
    if 0 <= pos < s.len() {
        lemma_next_digit(s, pos);
        if next_digit(s, pos) < s.len() {
            lemma_next_nondigit(s, next_digit(s, pos));
        }
    }
}

/// The maximal digit runs of `s`.
pub open spec fn spec_runs(s: Seq<char>) -> Seq<(int, int)> {
    runs_from(s, 0)
}

/// Scans the maximal digit runs of `s`, in order.
pub fn runs_of(s: &Vec<char>) -> (r: Vec<(usize, usize)>)
    ensures
        r@.len() == spec_runs(s@).len(),
        forall|k: int|
            0 <= k < r@.len() ==> (#[trigger] r@[k]).0 as int == spec_runs(s@)[k].0
                && r@[k].1 as int == spec_runs(s@)[k].1,
        forall|k: int|
            0 <= k < r@.len() ==> 0 <= (#[trigger] r@[k]).0 < r@[k].1 <= s@.len(),
{
    let n = s.len();
    let mut r: Vec<(usize, usize)> = Vec::new();
    let mut i: usize = 0;
    let ghost total = spec_runs(s@);
    proof {
        assert(s@.skip(0) =~= s@);
        assert(r@.map_values(|p: (usize, usize)| ((p.0 as int, p.1 as int))) =~= Seq::<
            (int, int),
        >::empty());
    }
    while i < n
        invariant
            0 <= i <= n,
            n == s@.len(),
            total == spec_runs(s@),
            total == r@.map_values(|p: (usize, usize)| ((p.0 as int, p.1 as int))) + runs_from(
                s@,
                i as int,
            ),
            forall|k: int|
                0 <= k < r@.len() ==> 0 <= (#[trigger] r@[k]).0 < r@[k].1 <= s@.len(),
        decreases n - i,
    {
        let c = s[i];
        if c >= '0' && c <= '9' {
            let mut j: usize = i + 1;
            while j < n
                invariant
                    i < j <= n,
                    n == s@.len(),
                    forall|q: int| i <= q < j ==> is_digit(#[trigger] s@[q]),
                ensures
                    i < j <= n,
                    forall|q: int| i <= q < j ==> is_digit(#[trigger] s@[q]),
                    j < n ==> !is_digit(s@[j as int]),
                decreases n - j,
            {
                let c2 = s[j];
                if !(c2 >= '0' && c2 <= '9') {
                    break;
                }
                j = j + 1;
            }
            proof {
                lemma_next_digit_exact(s@, i as int, i as int);
                if j < n {
                    lemma_next_nondigit_exact(s@, i as int, j as int);
                } else {
                    lemma_next_nondigit_exact(s@, i as int, n as int);
                }
                assert(runs_from(s@, i as int) == seq![(i as int, j as int)] + runs_from(
                    s@,
                    j as int,
                ));
            }
            let ghost old_r = r@;
            r.push((i, j));
            proof {
                let f = |p: (usize, usize)| ((p.0 as int, p.1 as int));
                assert(r@.map_values(f) =~= old_r.map_values(f).push((i as int, j as int)));
                assert(r@.map_values(f) + runs_from(s@, j as int) =~= old_r.map_values(f)
                    + runs_from(s@, i as int));
            }
            i = j;
        } else {
            proof {
                assert(next_digit(s@, i as int) == next_digit(s@, i + 1));
                if i + 1 < n {
                    assert(runs_from(s@, i as int) == runs_from(s@, i + 1));
                } else {
                    lemma_next_digit(s@, i + 1);
                    assert(runs_from(s@, i as int) == runs_from(s@, i + 1));
                }
            }
            i = i + 1;
        }
    }
    proof {
        assert(runs_from(s@, n as int) =~= Seq::<(int, int)>::empty());
        assert(r@.map_values(|p: (usize, usize)| ((p.0 as int, p.1 as int))) =~= total);
        assert forall|k: int| 0 <= k < r@.len() implies (#[trigger] r@[k]).0 as int
            == spec_runs(s@)[k].0 && r@[k].1 as int == spec_runs(s@)[k].1 by {
            let f = |p: (usize, usize)| ((p.0 as int, p.1 as int));
            assert(r@.map_values(f)[k] == f(r@[k]));
        }
    }
    r
}

/// Every run the scanner reports consists of digits.
pub proof fn lemma_runs_all_digits(s: Seq<char>, k: int)
    requires
        0 <= k < spec_runs(s).len(),
    ensures
        0 <= spec_runs(s)[k].0 < spec_runs(s)[k].1 <= s.len(),
        forall|q: int|
            spec_runs(s)[k].0 <= q < spec_runs(s)[k].1 ==> is_digit(#[trigger] s[q]),
        spec_runs(s)[k].1 - spec_runs(s)[k].0 > 0,
{
    lemma_runs_from_all_digits(s, 0, k);
}

pub proof fn lemma_runs_from_all_digits(s: Seq<char>, pos: int, k: int)
    requires
        0 <= pos,
        0 <= k < runs_from(s, pos).len(),
    ensures
        pos <= runs_from(s, pos)[k].0 < runs_from(s, pos)[k].1 <= s.len(),
        forall|q: int|
            runs_from(s, pos)[k].0 <= q < runs_from(s, pos)[k].1 ==> is_digit(#[trigger] s[q]),
    decreases s.len() - pos,
{
    lemma_next_digit(s, if pos <= s.len() {
        pos
    } else {
        pos
    });
    let d = next_digit(s, pos);
    if pos < s.len() && d < s.len() {
        lemma_next_nondigit(s, d);
        let e = next_nondigit(s, d);
        if k == 0 {
        } else {
            lemma_runs_from_all_digits(s, e, k - 1);
        }
    }
}

/// Copies `s[from..to]` into a fresh vector.
pub fn slice_chars(s: &Vec<char>, from: usize, to: usize) -> (r: Vec<char>)
    requires
        0 <= from <= to <= s@.len(),
    ensures
        r@ == s@.subrange(from as int, to as int),
{
    let mut r: Vec<char> = Vec::new();
    let mut j: usize = from;
    proof {
        assert(r@ =~= s@.subrange(from as int, from as int));
    }
    while j < to
        invariant
            from <= j <= to <= s@.len(),
            r@ == s@.subrange(from as int, j as int),
        decreases to - j,
    {
        r.push(s[j]);
        proof {
            assert(r@ =~= s@.subrange(from as int, j + 1));
        }
        j = j + 1;
    }
    r
}

/// An ASCII whitespace character, as `str::split_whitespace` treats the
/// usual input texts.
pub open spec fn is_ws(c: char) -> bool {
    c == ' ' || c == '\t' || c == '\r' || c == '\n' || c == '\u{b}' || c == '\u{c}'
}

/// The first position `>= pos` holding a non-whitespace character.
pub open spec fn next_sol(s: Seq<char>, pos: int) -> int
    decreases s.len() - pos,
{
    if pos < 0 {
        next_sol(s, 0)
    } else if pos >= s.len() {
        s.len() as int
    } else if !is_ws(s[pos]) {
        pos
    } else {
        next_sol(s, pos + 1)
    }
}

pub proof fn lemma_next_sol(s: Seq<char>, pos: int)
    requires
        0 <= pos <= s.len(),
    ensures
        pos <= next_sol(s, pos) <= s.len(),
        forall|j: int| pos <= j < next_sol(s, pos) ==> is_ws(#[trigger] s[j]),
        next_sol(s, pos) < s.len() ==> !is_ws(s[next_sol(s, pos)]),
    decreases s.len() - pos,
{
    if pos < s.len() && is_ws(s[pos]) {
        lemma_next_sol(s, pos + 1);
    }
}

/// The first position `>= pos` holding whitespace.
pub open spec fn next_ws(s: Seq<char>, pos: int) -> int
    decreases s.len() - pos,
{
    if pos < 0 {
        next_ws(s, 0)
    } else if pos >= s.len() {
        s.len() as int
    } else if is_ws(s[pos]) {
        pos
    } else {
        next_ws(s, pos + 1)
    }
}

pub proof fn lemma_next_ws(s: Seq<char>, pos: int)
    requires
        0 <= pos <= s.len(),
    ensures
        pos <= next_ws(s, pos) <= s.len(),
        forall|j: int| pos <= j < next_ws(s, pos) ==> !is_ws(#[trigger] s[j]),
        next_ws(s, pos) < s.len() ==> is_ws(s[next_ws(s, pos)]),
    decreases s.len() - pos,
{
    if pos < s.len() && !is_ws(s[pos]) {
        lemma_next_ws(s, pos + 1);
    }
}

pub proof fn lemma_next_sol_exact(s: Seq<char>, pos: int, i: int)
    requires
        0 <= pos <= i <= s.len(),
        forall|j: int| pos <= j < i ==> is_ws(#[trigger] s[j]),
        i < s.len() ==> !is_ws(s[i]),
    ensures
        next_sol(s, pos) == i,
    decreases i - pos,
{
    if pos < i {
        lemma_next_sol_exact(s, pos + 1, i);
    }
}

pub proof fn lemma_next_ws_exact(s: Seq<char>, pos: int, i: int)
    requires
        0 <= pos <= i <= s.len(),
        forall|j: int| pos <= j < i ==> !is_ws(#[trigger] s[j]),
        i < s.len() ==> is_ws(s[i]),
    ensures
        next_ws(s, pos) == i,
    decreases i - pos,
{
    if pos < i {
        lemma_next_ws_exact(s, pos + 1, i);
    }
}

/// The whitespace-separated tokens of `s[pos..]` as index ranges, as
/// `str::split_whitespace` yields them.
pub open spec fn tokens_from(s: Seq<char>, pos: int) -> Seq<(int, int)>
    decreases s.len() - pos,
    when 0 <= pos
    via tokens_from_decreases
{
    if pos >= s.len() {
        Seq::empty()
    } else {
        let d = next_sol(s, pos);
        if d >= s.len() {
            Seq::empty()
        } else {
            let e = next_ws(s, d);
            seq![(d, e)] + tokens_from(s, e)
        }
    }
}

#[via_fn]
proof fn tokens_from_decreases(s: Seq<char>, pos: int) {
    if 0 <= pos < s.len() {
        lemma_next_sol(s, pos);
        if next_sol(s, pos) < s.len() {
            lemma_next_ws(s, next_sol(s, pos));
        }
    }
}

pub open spec fn spec_tokens(s: Seq<char>) -> Seq<(int, int)> {
    tokens_from(s, 0)
}

/// Scans the whitespace-separated tokens of `s`, in order.
pub fn tokens_of(s: &Vec<char>) -> (r: Vec<(usize, usize)>)
    ensures
        r@.len() == spec_tokens(s@).len(),
        forall|k: int|
            0 <= k < r@.len() ==> (#[trigger] r@[k]).0 as int == spec_tokens(s@)[k].0
                && r@[k].1 as int == spec_tokens(s@)[k].1,
        forall|k: int|
            0 <= k < r@.len() ==> 0 <= (#[trigger] r@[k]).0 < r@[k].1 <= s@.len(),
{
    let n = s.len();
    let mut r: Vec<(usize, usize)> = Vec::new();
    let mut i: usize = 0;
    let ghost total = spec_tokens(s@);
    proof {
        assert(r@.map_values(|p: (usize, usize)| ((p.0 as int, p.1 as int))) =~= Seq::<
            (int, int),
        >::empty());
    }
    while i < n
        invariant
            0 <= i <= n,
            n == s@.len(),
            total == spec_tokens(s@),
            total == r@.map_values(|p: (usize, usize)| ((p.0 as int, p.1 as int))) + tokens_from(
                s@,
                i as int,
            ),
            forall|k: int|
                0 <= k < r@.len() ==> 0 <= (#[trigger] r@[k]).0 < r@[k].1 <= s@.len(),
        decreases n - i,
    {
        let c = s[i];
        if !(c == ' ' || c == '\t' || c == '\r' || c == '\n' || c == '\u{b}' || c == '\u{c}') {
            let mut j: usize = i + 1;
            while j < n
                invariant
                    i < j <= n,
                    n == s@.len(),
                    forall|q: int| i <= q < j ==> !is_ws(#[trigger] s@[q]),
                ensures
                    i < j <= n,
                    forall|q: int| i <= q < j ==> !is_ws(#[trigger] s@[q]),
                    j < n ==> is_ws(s@[j as int]),
                decreases n - j,
            {
                let c2 = s[j];
                if c2 == ' ' || c2 == '\t' || c2 == '\r' || c2 == '\n' || c2 == '\u{b}' || c2
                    == '\u{c}' {
                    break;
                }
                j = j + 1;
            }
            proof {
                lemma_next_sol_exact(s@, i as int, i as int);
                if j < n {
                    lemma_next_ws_exact(s@, i as int, j as int);
                } else {
                    lemma_next_ws_exact(s@, i as int, n as int);
                }
                assert(tokens_from(s@, i as int) == seq![(i as int, j as int)] + tokens_from(
                    s@,
                    j as int,
                ));
            }
            let ghost old_r = r@;
            r.push((i, j));
            proof {
                let f = |p: (usize, usize)| ((p.0 as int, p.1 as int));
                assert(r@.map_values(f) =~= old_r.map_values(f).push((i as int, j as int)));
                assert(r@.map_values(f) + tokens_from(s@, j as int) =~= old_r.map_values(f)
                    + tokens_from(s@, i as int));
            }
            i = j;
        } else {
            proof {
                assert(next_sol(s@, i as int) == next_sol(s@, i + 1));
                if i + 1 < n {
                    assert(tokens_from(s@, i as int) == tokens_from(s@, i + 1));
                } else {
                    lemma_next_sol(s@, i + 1);
                    assert(tokens_from(s@, i as int) == tokens_from(s@, i + 1));
                }
            }
            i = i + 1;
        }
    }
    proof {
        assert(tokens_from(s@, n as int) =~= Seq::<(int, int)>::empty());
        assert(r@.map_values(|p: (usize, usize)| ((p.0 as int, p.1 as int))) =~= total);
        assert forall|k: int| 0 <= k < r@.len() implies (#[trigger] r@[k]).0 as int
            == spec_tokens(s@)[k].0 && r@[k].1 as int == spec_tokens(s@)[k].1 by {
            let f = |p: (usize, usize)| ((p.0 as int, p.1 as int));
            assert(r@.map_values(f)[k] == f(r@[k]));
        }
    }
    r
}

/// What `str::parse::<i32>` returns on this token.
pub open spec fn spec_parse_i32(s: Seq<char>) -> Option<i32> {
    if s.len() > 0 && s[0] == '-' {
        let d = s.subrange(1, s.len() as int);
        if d.len() > 0 && all_digits(d) && -digits_val(d) >= i32::MIN {
            Some((-digits_val(d)) as i32)
        } else {
            None
        }
    } else {
        let d = unsigned_body(s);
        if d.len() > 0 && all_digits(d) && digits_val(d) <= i32::MAX {
            Some(digits_val(d) as i32)
        } else {
            None
        }
    }
}

/// Parses a signed 32-bit number as `str::parse::<i32>` does.
pub fn parse_i32(t: &Vec<char>) -> (r: Option<i32>)
    ensures
        r == spec_parse_i32(t@),
{
    let n = t.len();
    if n > 0 && t[0] == '-' {
        let body = slice_chars(t, 1, n);
        if body.len() == 0 {
            return None;
        }
        if body[0] == '+' {
            proof {
                assert(!is_digit('+'));
                assert(!all_digits(body@));
            }
            return None;
        }
        proof {
            assert(body@ == t@.subrange(1, n as int));
            assert(unsigned_body(body@) =~= body@);
        }
        match parse_u64(&body) {
            Some(v) => {
                proof {
                    lemma_digits_val_nonneg(unsigned_body(body@));
                }
                if v <= 0x8000_0000u64 {
                    Some((-(v as i64)) as i32)
                } else {
                    None
                }
            },
            None => {
                proof {
                    let d = t@.subrange(1, n as int);
                    if d.len() > 0 && all_digits(d) && -digits_val(d) >= i32::MIN {
                        lemma_digits_val_nonneg(d);
                        assert(digits_val(d) <= 0x8000_0000);
                        assert(spec_parse_u64(d) is Some);
                    }
                }
                None
            },
        }
    } else {
        match parse_u64(t) {
            Some(v) => {
                proof {
                    lemma_digits_val_nonneg(unsigned_body(t@));
                }
                if v <= i32::MAX as u64 {
                    Some(v as i32)
                } else {
                    None
                }
            },
            None => {
                proof {
                    let d = unsigned_body(t@);
                    if d.len() > 0 && all_digits(d) && digits_val(d) <= i32::MAX {
                        assert(digits_val(d) <= u64::MAX);
                    }
                }
                None
            },
        }
    }
}

} // verus!
