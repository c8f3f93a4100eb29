//! Fixed columns, lines, and numbers in their place in a text.

use crate::text::{
    all_digits, digits_value, fields, first_index, is_digit, lemma_first_index, lemma_token_len,
    lemma_trim_start_len, skip_ws, token_end, token_len, trim_end, trim_start, trimmed, utf8,
    ws_end_len, ws_end_len_at,
};
use vstd::prelude::*;
use vstd::slice::slice_subrange;

verus! {

/// Columns `a` to `b` of a line, as far as it goes.
pub open spec fn cols(line: Seq<u8>, a: int, b: int) -> Seq<u8> {
    let n = line.len() as int;
    let lo = if a < n { a } else { n };
    let hi = if b < n { b } else { n };
    line.subrange(lo, hi)
}

/// Columns `a` to `b` of a line, as far as it goes.
pub fn line_cols(line: &[u8], a: usize, b: usize) -> (r: &[u8])
    requires
        a <= b,
    ensures
        r@ == cols(line@, a as int, b as int),
{
    let n: usize = line.len();
    let lo: usize = if a < n {
        a
    } else {
        n
    };
    let hi: usize = if b < n {
        b
    } else {
        n
    };
    slice_subrange(line, lo, hi)
}

// ---- where things stand ----

/// Where a text without the whitespace around it begins and ends.
pub open spec fn trim_range(s: Seq<u8>) -> (int, int) {
    let start = s.len() - trim_start(s).len();
    (start, start + trimmed(s).len())
}

proof fn lemma_trim_end_len(s: Seq<u8>)
    ensures
        trim_end(s).len() <= s.len(),
        trim_end(s) == s.take(trim_end(s).len() as int),
    decreases s.len(),
{
    if ws_end_len(s) > 0 {
        let t = s.take(s.len() - ws_end_len(s));
        lemma_trim_end_len(t);
        assert(t.take(trim_end(t).len() as int) =~= s.take(trim_end(t).len() as int));
    } else {
        assert(s.take(s.len() as int) =~= s);
    }
}

proof fn lemma_trim_start_suffix(s: Seq<u8>)
    ensures
        trim_start(s) == s.skip(s.len() - trim_start(s).len()),
        trim_start(s).len() <= s.len(),
    decreases s.len(),
{
    let n = crate::text::ws_len(s);
    if n > 0 {
        let t = s.skip(n);
        lemma_trim_start_suffix(t);
        assert(t.skip(t.len() - trim_start(t).len()) =~= s.skip(s.len() - trim_start(t).len()));
    } else {
        assert(s.skip(0) =~= s);
    }
}

/// The range of a trimmed text holds the trimmed text.
pub proof fn lemma_trim_range(s: Seq<u8>)
    ensures
        0 <= trim_range(s).0 <= trim_range(s).1 <= s.len(),
        s.subrange(trim_range(s).0, trim_range(s).1) == trimmed(s),
{
    let t = trim_start(s);
    lemma_trim_start_suffix(s);
    lemma_trim_end_len(t);
    assert(s.subrange(trim_range(s).0, trim_range(s).1) =~= t.take(trim_end(t).len() as int));
}

/// Finds where a text without the whitespace around it begins and ends.
pub fn find_trimmed(s: &[u8]) -> (r: (usize, usize))
    ensures
        r.0 == trim_range(s@).0,
        r.1 == trim_range(s@).1,
        r.0 <= r.1 <= s@.len(),
        s@.subrange(r.0 as int, r.1 as int) == trimmed(s@),
{
    assert(s@.skip(0) =~= s@);
    let lo: usize = skip_ws(s, 0);
    let mut hi: usize = s.len();
    assert(s@.subrange(lo as int, hi as int) =~= s@.skip(lo as int));
    loop
        invariant
            lo <= hi <= s@.len(),
            trimmed(s@) == trim_end(s@.subrange(lo as int, hi as int)),
        ensures
            ws_end_len(s@.subrange(lo as int, hi as int)) == 0,
        decreases hi - lo,
    {
        let n: usize = ws_end_len_at(s, lo, hi);
        if n == 0 {
            break;
        }
        assert(s@.subrange(lo as int, hi as int).take(hi - lo - n) =~= s@.subrange(
            lo as int,
            hi - n,
        ));
        hi -= n;
    }
    (lo, hi)
}

/// Where the fields of `s` from `pos` on begin and end.
pub open spec fn field_ranges(s: Seq<u8>, pos: int) -> Seq<(int, int)>
    decreases s.len() - pos,
{
    let t = trim_start(s.skip(pos));
    if pos < 0 || pos > s.len() || t.len() == 0 {
        Seq::empty()
    } else {
        let start = s.len() - t.len();
        let end = start + token_len(t);
        proof {
            lemma_trim_start_len(s.skip(pos));
            lemma_token_len(t);
        }
        seq![(start, end)] + field_ranges(s, end)
    }
}

/// The ranges of fields hold the fields.
pub proof fn lemma_field_ranges(s: Seq<u8>, pos: int)
    requires
        0 <= pos <= s.len(),
    ensures
        field_ranges(s, pos).len() == fields(s.skip(pos)).len(),
        forall|i: int|
            0 <= i < field_ranges(s, pos).len() ==> {
                let (a, b) = #[trigger] field_ranges(s, pos)[i];
                0 <= a < b <= s.len() && s.subrange(a, b) == fields(s.skip(pos))[i]
            },
    decreases s.len() - pos,
{
    let t = trim_start(s.skip(pos));
    if t.len() > 0 {
        lemma_trim_start_suffix(s.skip(pos));
        lemma_trim_start_len(s.skip(pos));
        lemma_token_len(t);
        let start = s.len() - t.len();
        let end = start + token_len(t);
        assert(t =~= s.skip(start));
        assert(t.skip(token_len(t)) =~= s.skip(end));
        assert(t.take(token_len(t)) =~= s.subrange(start, end));
        lemma_field_ranges(s, end);
        assert forall|i: int| 0 <= i < field_ranges(s, pos).len() implies ({
            let (a, b) = #[trigger] field_ranges(s, pos)[i];
            0 <= a < b <= s.len() && s.subrange(a, b) == fields(s.skip(pos))[i]
        }) by {
            if i > 0 {
                assert(field_ranges(s, pos)[i] == field_ranges(s, end)[i - 1]);
                assert(fields(s.skip(pos))[i] == fields(s.skip(end))[i - 1]);
            }
        }
    }
}

/// Ranges as numbers of any size.
pub open spec fn as_ranges(v: Seq<(usize, usize)>) -> Seq<(int, int)> {
    v.map_values(|r: (usize, usize)| (r.0 as int, r.1 as int))
}

/// Finds where the fields of `s` begin and end.
pub fn find_fields(s: &[u8]) -> (r: Vec<(usize, usize)>)
    ensures
        as_ranges(r@) == field_ranges(s@, 0),
        r@.len() == fields(s@).len(),
        forall|i: int|
            0 <= i < r@.len() ==> (#[trigger] r@[i]).0 < r@[i].1 <= s@.len() && s@.subrange(
                r@[i].0 as int,
                r@[i].1 as int,
            ) == fields(s@)[i],
{
    let mut out: Vec<(usize, usize)> = Vec::new();
    let mut pos: usize = 0;
    assert(as_ranges(out@) + field_ranges(s@, 0) =~= field_ranges(s@, 0));
    loop
        invariant
            pos <= s@.len(),
            as_ranges(out@) + field_ranges(s@, pos as int) == field_ranges(s@, 0),
        ensures
            as_ranges(out@) == field_ranges(s@, 0),
        decreases s@.len() - pos,
    {
        let start: usize = skip_ws(s, pos);
        proof {
            lemma_trim_start_len(s@.skip(pos as int));
            lemma_token_len(s@.skip(start as int));
        }
        if start == s.len() {
            assert(field_ranges(s@, pos as int) =~= Seq::empty());
            assert(as_ranges(out@) =~= field_ranges(s@, 0));
            break;
        }
        let ghost before = out@;
        let end: usize = token_end(s, start);
        out.push((start, end));
        assert(as_ranges(out@) =~= as_ranges(before).push((start as int, end as int)));
        assert(as_ranges(out@) + field_ranges(s@, end as int) =~= as_ranges(before) + (seq![
            (start as int, end as int),
        ] + field_ranges(s@, end as int)));
        pos = end;
    }
    proof {
        assert(s@.skip(0) =~= s@);
        lemma_field_ranges(s@, 0);
        assert forall|i: int| 0 <= i < out@.len() implies (#[trigger] out@[i]).0 < out@[i].1
            <= s@.len() && s@.subrange(out@[i].0 as int, out@[i].1 as int) == fields(s@)[i] by {
            assert(as_ranges(out@)[i] == field_ranges(s@, 0)[i]);
        }
    }
    out
}

// ---- lines ----

/// A text without the carriage returns at its end.
pub open spec fn without_returns(s: Seq<u8>) -> Seq<u8>
    decreases s.len(),
{
    if s.len() > 0 && s.last() == 0x0d {
        without_returns(s.drop_last())
    } else {
        s
    }
}

/// Where the line that begins at `pos` ends.
pub open spec fn line_end(d: Seq<u8>, pos: int) -> int {
    pos + first_index(d.skip(pos), 0x0a)
}

/// The line that begins at `pos`, without its line end.
pub open spec fn line_at(d: Seq<u8>, pos: int) -> Seq<u8> {
    without_returns(d.subrange(pos, line_end(d, pos)))
}

/// Where the line after the one at `pos` begins.
pub open spec fn after_line(d: Seq<u8>, pos: int) -> int {
    if line_end(d, pos) < d.len() {
        line_end(d, pos) + 1
    } else {
        d.len() as int
    }
}

pub proof fn lemma_line(d: Seq<u8>, pos: int)
    requires
        0 <= pos < d.len(),
    ensures
        pos <= line_end(d, pos) <= d.len(),
        pos < after_line(d, pos) <= d.len(),
{
    lemma_first_index(d.skip(pos), 0x0a);
}

/// Reads the line that begins at `pos`; gives it and where the next one begins.
pub fn read_line(d: &[u8], pos: usize) -> (r: (&[u8], usize))
    requires
        pos < d@.len(),
    ensures
        r.0@ == line_at(d@, pos as int),
        r.1 == after_line(d@, pos as int),
        pos < r.1 <= d@.len(),
{
    let rest = slice_subrange(d, pos, d.len());
    assert(rest@ =~= d@.skip(pos as int));
    let len: usize = crate::text::find_byte(rest, 0x0a);
    let end: usize = pos + len;
    let mut stop: usize = end;
    while stop > pos && d[stop - 1] == 0x0d
        invariant
            pos <= stop <= end <= d@.len(),
            line_at(d@, pos as int) == without_returns(d@.subrange(pos as int, stop as int)),
            line_end(d@, pos as int) == end,
        decreases stop,
    {
        assert(d@.subrange(pos as int, stop as int).drop_last() =~= d@.subrange(
            pos as int,
            stop - 1,
        ));
        stop -= 1;
    }
    assert(stop > pos ==> d@.subrange(pos as int, stop as int).last() == d@[stop - 1]);
    let next: usize = if end < d.len() {
        end + 1
    } else {
        d.len()
    };
    proof {
        lemma_line(d@, pos as int);
    }
    (slice_subrange(d, pos, stop), next)
}

// ---- numbers with a fraction ----

/// A text in lower case, as far as it is ASCII.
pub open spec fn lowered(s: Seq<u8>) -> Seq<u8> {
    s.map_values(|b: u8| if 0x41 <= b <= 0x5a { (b + 32) as u8 } else { b })
}

fn lower(b: u8) -> (r: u8)
    ensures
        r == (if 0x41 <= b <= 0x5a {
            (b + 32) as u8
        } else {
            b
        }),
{
    if 0x41 <= b && b <= 0x5a {
        b + 32
    } else {
        b
    }
}

/// Whether two texts differ at most in the case of ASCII letters.
pub fn same_letters(a: &[u8], b: &[u8]) -> (r: bool)
    ensures
        r == (lowered(a@) == lowered(b@)),
{
    assert(lowered(a@).len() == a@.len());
    assert(lowered(b@).len() == b@.len());
    if a.len() != b.len() {
        return false;
    }
    let mut i: usize = 0;
    while i < a.len()
        invariant
            i <= a@.len(),
            a@.len() == b@.len(),
            forall|j: int| 0 <= j < i ==> lowered(a@)[j] == lowered(b@)[j],
        decreases a@.len() - i,
    {
        if lower(a[i]) != lower(b[i]) {
            assert(lowered(a@)[i as int] != lowered(b@)[i as int]);
            return false;
        }
        i += 1;
    }
    assert(lowered(a@) =~= lowered(b@));
    true
}

/// A text without the sign in front.
pub open spec fn unsigned(s: Seq<u8>) -> Seq<u8> {
    if s.len() > 0 && (s[0] == 0x2b || s[0] == 0x2d) {
        s.skip(1)
    } else {
        s
    }
}

/// How many digits a text begins with.
pub open spec fn digit_run(s: Seq<u8>) -> int
    decreases s.len(),
{
    if s.len() == 0 || !is_digit(s[0]) {
        0
    } else {
        1 + digit_run(s.skip(1))
    }
}

/// Whether a text is an exponent: an `e`, an optional sign, and digits.
pub open spec fn exponent_form(s: Seq<u8>) -> bool {
    &&& s.len() > 0
    &&& s[0] == 0x65 || s[0] == 0x45
    &&& unsigned(s.skip(1)).len() > 0
    &&& all_digits(unsigned(s.skip(1)))
}

/// Whether a text is a number with an optional fraction and exponent: there is
/// at least one digit before or behind the point.
pub open spec fn decimal_form(s: Seq<u8>) -> bool {
    let whole = digit_run(s);
    let point = whole < s.len() && s[whole] == 0x2e;
    let fraction = if point {
        digit_run(s.skip(whole + 1))
    } else {
        0
    };
    let end = if point {
        whole + 1 + fraction
    } else {
        whole
    };
    &&& whole + fraction > 0
    &&& end == s.len() || exponent_form(s.skip(end))
}

/// Whether a text denotes a floating-point number, in the grammar of
/// `f64::from_str`.
#[verifier::opaque]
pub open spec fn is_float_text(s: Seq<u8>) -> bool {
    let b = unsigned(s);
    ||| decimal_form(b)
    ||| lowered(b) == lowered(utf8("inf"@))
    ||| lowered(b) == lowered(utf8("infinity"@))
    ||| lowered(b) == lowered(utf8("nan"@))
}

fn skip_sign(s: &[u8]) -> (r: &[u8])
    ensures
        r@ == unsigned(s@),
{
    if s.len() > 0 && (s[0] == 0x2b || s[0] == 0x2d) {
        let r = slice_subrange(s, 1, s.len());
        assert(r@ =~= s@.skip(1));
        r
    } else {
        s
    }
}

pub(crate) fn count_digits(s: &[u8], from: usize) -> (r: usize)
    requires
        from <= s@.len(),
    ensures
        r == digit_run(s@.skip(from as int)),
        from + r <= s@.len(),
{
    let mut i: usize = from;
    while i < s.len() && 0x30 <= s[i] && s[i] <= 0x39
        invariant
            from <= i <= s@.len(),
            digit_run(s@.skip(from as int)) == i - from + digit_run(s@.skip(i as int)),
        decreases s@.len() - i,
    {
        assert(s@.skip(i as int).skip(1) =~= s@.skip(i + 1));
        i += 1;
    }
    i - from
}

fn is_exponent(s: &[u8]) -> (r: bool)
    ensures
        r == exponent_form(s@),
{
    if s.len() == 0 || (s[0] != 0x65 && s[0] != 0x45) {
        return false;
    }
    let rest = slice_subrange(s, 1, s.len());
    assert(rest@ =~= s@.skip(1));
    let digits = skip_sign(rest);
    assert(digits@.skip(0) =~= digits@);
    proof {
        lemma_digit_run(digits@);
    }
    digits.len() > 0 && count_digits(digits, 0) == digits.len()
}

proof fn lemma_digit_run(s: Seq<u8>)
    ensures
        0 <= digit_run(s) <= s.len(),
        digit_run(s) == s.len() <==> all_digits(s),
    decreases s.len(),
{
    if s.len() > 0 && is_digit(s[0]) {
        lemma_digit_run(s.skip(1));
        if digit_run(s) == s.len() {
            assert forall|i: int| 0 <= i < s.len() implies is_digit(#[trigger] s[i]) by {
                if i > 0 {
                    assert(s.skip(1)[i - 1] == s[i]);
                }
            }
        }
        if all_digits(s) {
            assert(all_digits(s.skip(1)));
        }
    }
}

/// Whether a text denotes a floating-point number.
pub fn is_float(s: &[u8]) -> (r: bool)
    ensures
        r == is_float_text(s@),
{
    reveal(is_float_text);
    let b = skip_sign(s);
    let n: usize = b.len();
    assert(b@.skip(0) =~= b@);
    let whole: usize = count_digits(b, 0);
    let mut end: usize = whole;
    let mut fraction: usize = 0;
    if whole < n && b[whole] == 0x2e {
        fraction = count_digits(b, whole + 1);
        end = whole + 1 + fraction;
    }
    if whole > 0 || fraction > 0 {
        if end == n {
            return true;
        }
        let rest = slice_subrange(b, end, n);
        assert(rest@ =~= b@.skip(end as int));
        if is_exponent(rest) {
            return true;
        }
    }
    same_letters(b, "inf".as_bytes()) || same_letters(b, "infinity".as_bytes()) || same_letters(
        b,
        "nan".as_bytes(),
    )
}

/// Few digits denote a small number.
pub proof fn lemma_digits_bound(s: Seq<u8>)
    requires
        all_digits(s),
        s.len() <= 7,
    ensures
        0 <= digits_value(s) <= 9_999_999,
        s.len() <= 4 ==> digits_value(s) <= 9999,
{
    reveal_with_fuel(digits_value, 8);
}

} // verus!
