//! Text as bytes: decimal numbers, whitespace, fields and padding.

use vstd::prelude::*;
use vstd::slice::slice_subrange;
use vstd::utf8::{
    encode_utf8, encode_utf8_decode_utf8, encode_utf8_valid_utf8, is_ascii_chars, is_ascii_chars_encode_utf8, valid_utf8,
};

verus! {

// ---- decimal numbers ----

/// Whether `b` is an ASCII decimal digit.
pub open spec fn is_digit(b: u8) -> bool {
    0x30 <= b <= 0x39
}

/// Whether `s` consists of decimal digits.
pub open spec fn all_digits(s: Seq<u8>) -> bool {
    forall|i: int| 0 <= i < s.len() ==> is_digit(#[trigger] s[i])
}

/// Tells whether all bytes are decimal digits.
pub fn is_digits(s: &[u8]) -> (r: bool)
    ensures
        r == all_digits(s@),
{
    let mut i: usize = 0;
    while i < s.len()
        invariant
            i <= s@.len(),
            all_digits(s@.take(i as int)),
        decreases s@.len() - i,
    {
        assert(s@.take(i + 1)[i as int] == s@[i as int]);
        if s[i] < 0x30 || s[i] > 0x39 {
            return false;
        }
        assert forall|j: int| 0 <= j < i + 1 implies is_digit(#[trigger] s@.take(i + 1)[j]) by {
            if j < i {
                assert(s@.take(i as int)[j] == s@[j]);
            }
        }
        i += 1;
    }
    assert(s@.take(i as int) =~= s@);
    true
}

/// The number that a sequence of decimal digits denotes.
pub open spec fn digits_value(s: Seq<u8>) -> int
    decreases s.len(),
{
    if s.len() == 0 {
        0
    } else {
        10 * digits_value(s.drop_last()) + (s.last() - 0x30)
    }
}

/// The number that an unsigned decimal text denotes: digits, with an optional
/// plus sign in front.
pub open spec fn uint_text(s: Seq<u8>) -> Option<int> {
    let digits = if s.len() > 0 && s[0] == 0x2b { s.skip(1) } else { s };
    if digits.len() > 0 && all_digits(digits) {
        Some(digits_value(digits))
    } else {
        None
    }
}

/// The number that a signed decimal text denotes: digits, with an optional plus
/// or minus sign in front.
pub open spec fn int_text(s: Seq<u8>) -> Option<int> {
    if s.len() > 0 && s[0] == 0x2d {
        if s.len() > 1 && all_digits(s.skip(1)) {
            Some(-digits_value(s.skip(1)))
        } else {
            None
        }
    } else {
        uint_text(s)
    }
}

/// The value of an optional number if it is at least `lo` and at most `hi`.
pub open spec fn within(v: Option<int>, lo: int, hi: int) -> Option<int> {
    match v {
        Some(n) if lo <= n <= hi => Some(n),
        _ => None,
    }
}

pub proof fn lemma_digits_value_nonneg(s: Seq<u8>)
    requires
        all_digits(s),
    ensures
        digits_value(s) >= 0,
    decreases s.len(),
{
    if s.len() > 0 {
        assert(all_digits(s.drop_last()));
        lemma_digits_value_nonneg(s.drop_last());
    }
}

/// A longer text of digits denotes no smaller a number.
proof fn lemma_digits_value_prefix(s: Seq<u8>, i: int)
    requires
        all_digits(s),
        0 <= i <= s.len(),
    ensures
        0 <= digits_value(s.take(i)) <= digits_value(s),
    decreases s.len() - i,
{
    if i == s.len() {
        assert(s.take(i) =~= s);
        lemma_digits_value_nonneg(s);
    } else {
        lemma_digits_value_prefix(s, i + 1);
        assert(s.take(i + 1).drop_last() =~= s.take(i));
        assert(s.take(i + 1).last() == s[i]);
        assert(all_digits(s.take(i)));
        lemma_digits_value_nonneg(s.take(i));
    }
}

/// Reads decimal digits as a number of at most `max`.
pub fn parse_digits(s: &[u8], max: u64) -> (r: Option<u64>)
    ensures
        r is Some <==> s@.len() > 0 && all_digits(s@) && digits_value(s@) <= max,
        r matches Some(v) ==> v == digits_value(s@),
{
    if s.len() == 0 {
        return None;
    }
    let mut v: u64 = 0;
    let mut i: usize = 0;
    while i < s.len()
        invariant
            0 <= i <= s@.len(),
            v == digits_value(s@.take(i as int)),
            v <= max,
            forall|j: int| 0 <= j < i ==> is_digit(#[trigger] s@[j]),
        decreases s@.len() - i,
    {
        let b: u8 = s[i];
        if b < 0x30 || b > 0x39 {
            assert(!is_digit(s@[i as int]));
            return None;
        }
        let d: u64 = (b - 0x30) as u64;
        proof {
            assert(s@.take(i + 1).drop_last() =~= s@.take(i as int));
            assert(s@.take(i + 1).last() == b);
        }
        if d > max || v > (max - d) / 10 {
            proof {
                if all_digits(s@) {
                    lemma_digits_value_prefix(s@, i + 1);
                }
            }
            return None;
        }
        v = v * 10 + d;
        i += 1;
    }
    assert(s@.take(i as int) =~= s@);
    Some(v)
}

/// Reads an unsigned decimal text as a number of at most `max`.
pub fn parse_uint(s: &[u8], max: u64) -> (r: Option<u64>)
    ensures
        r is Some <==> within(uint_text(s@), 0, max as int) is Some,
        r matches Some(v) ==> uint_text(s@) == Some(v as int),
{
    if s.len() > 0 && s[0] == 0x2b {
        let rest = slice_subrange(s, 1, s.len());
        assert(rest@ =~= s@.skip(1));
        proof {
            if all_digits(rest@) {
                lemma_digits_value_nonneg(rest@);
            }
        }
        parse_digits(rest, max)
    } else {
        proof {
            if all_digits(s@) {
                lemma_digits_value_nonneg(s@);
            }
        }
        parse_digits(s, max)
    }
}

/// Reads a `u32` from decimal text.
pub fn parse_u32(s: &[u8]) -> (r: Option<u32>)
    ensures
        r is Some <==> within(uint_text(s@), 0, u32::MAX as int) is Some,
        r matches Some(v) ==> uint_text(s@) == Some(v as int),
{
    match parse_uint(s, 0xffff_ffff) {
        Some(v) => Some(v as u32),
        None => None,
    }
}

/// Reads an `i64` from decimal text.
pub fn parse_i64(s: &[u8]) -> (r: Option<i64>)
    ensures
        r is Some <==> within(int_text(s@), i64::MIN as int, i64::MAX as int) is Some,
        r matches Some(v) ==> int_text(s@) == Some(v as int),
{
    if s.len() > 0 && s[0] == 0x2d {
        let rest = slice_subrange(s, 1, s.len());
        assert(rest@ =~= s@.skip(1));
        proof {
            if all_digits(rest@) {
                lemma_digits_value_nonneg(rest@);
            }
        }
        match parse_digits(rest, 0x8000_0000_0000_0000) {
            Some(v) => if v == 0x8000_0000_0000_0000 {
                Some(i64::MIN)
            } else {
                Some(-(v as i64))
            },
            None => None,
        }
    } else {
        match parse_uint(s, 0x7fff_ffff_ffff_ffff) {
            Some(v) => Some(v as i64),
            None => {
                proof {
                    let digits = if s@.len() > 0 && s@[0] == 0x2b { s@.skip(1) } else { s@ };
                    if all_digits(digits) {
                        lemma_digits_value_nonneg(digits);
                    }
                }
                None
            },
        }
    }
}

/// The decimal digits of `n`, without leading zeros.
pub open spec fn dec(n: nat) -> Seq<u8>
    decreases n,
{
    if n < 10 {
        seq![(0x30 + n) as u8]
    } else {
        dec(n / 10).push((0x30 + n % 10) as u8)
    }
}

/// Appends the decimal digits of `n`.
pub fn push_dec(out: &mut Vec<u8>, n: u64)
    ensures
        final(out)@ == old(out)@ + dec(n as nat),
    decreases n,
{
    if n < 10 {
        out.push(0x30 + n as u8);
        assert(out@ =~= old(out)@ + dec(n as nat));
    } else {
        push_dec(out, n / 10);
        out.push(0x30 + (n % 10) as u8);
        assert(out@ =~= old(out)@ + dec(n as nat));
    }
}

/// Reading the digits of a number gives the number back.
pub proof fn lemma_dec_value(n: nat)
    ensures
        dec(n).len() > 0,
        all_digits(dec(n)),
        digits_value(dec(n)) == n,
    decreases n,
{
    if n < 10 {
        assert(dec(n).drop_last() =~= Seq::<u8>::empty());
        assert(digits_value(Seq::<u8>::empty()) == 0);
    } else {
        lemma_dec_value(n / 10);
        assert(dec(n).drop_last() =~= dec(n / 10));
    }
}

/// How many digits a number below a power of ten has.
pub proof fn lemma_dec_len(n: nat)
    ensures
        n < 10 ==> dec(n).len() == 1,
        10 <= n < 100 ==> dec(n).len() == 2,
        100 <= n < 1000 ==> dec(n).len() == 3,
        1000 <= n < 10000 ==> dec(n).len() == 4,
        n < 10_000_000 ==> dec(n).len() <= 7,
        n < 1_000_000_000 ==> dec(n).len() <= 9,
{
    reveal_with_fuel(dec, 10);
}

/// `n` copies of `b`.
pub open spec fn repeated(b: u8, n: int) -> Seq<u8> {
    Seq::new(if n >= 0 { n as nat } else { 0 }, |i: int| b)
}

/// `s` moved to the right end of a field of `w` bytes filled up with `b`.
pub open spec fn pad_left(s: Seq<u8>, w: int, b: u8) -> Seq<u8> {
    repeated(b, w - s.len()) + s
}

/// The digits of `n` with leading zeros up to `w` places.
pub open spec fn zero_padded(n: nat, w: int) -> Seq<u8> {
    pad_left(dec(n), w, 0x30)
}

/// Appends `n` copies of `b`.
pub fn push_repeated(out: &mut Vec<u8>, b: u8, n: usize)
    ensures
        final(out)@ == old(out)@ + repeated(b, n as int),
{
    let mut i: usize = 0;
    while i < n
        invariant
            i <= n,
            out@ == old(out)@ + repeated(b, i as int),
        decreases n - i,
    {
        out.push(b);
        i += 1;
        assert(out@ =~= old(out)@ + repeated(b, i as int));
    }
    assert(n == 0 ==> out@ =~= old(out)@ + repeated(b, 0));
}

/// Appends the bytes of `s`.
pub fn push_bytes(out: &mut Vec<u8>, s: &[u8])
    ensures
        final(out)@ == old(out)@ + s@,
{
    let mut i: usize = 0;
    while i < s.len()
        invariant
            i <= s@.len(),
            out@ == old(out)@ + s@.take(i as int),
        decreases s@.len() - i,
    {
        out.push(s[i]);
        i += 1;
        assert(s@.take(i as int) =~= s@.take(i - 1).push(s@[i - 1]));
    }
    assert(s@.take(i as int) =~= s@);
}

/// Appends `s` moved to the right end of a field of `w` bytes.
pub fn push_padded(out: &mut Vec<u8>, s: &[u8], w: usize, b: u8)
    ensures
        final(out)@ == old(out)@ + pad_left(s@, w as int, b),
{
    if s.len() < w {
        push_repeated(out, b, w - s.len());
    }
    push_bytes(out, s);
    assert(out@ =~= old(out)@ + pad_left(s@, w as int, b));
}

/// Appends the digits of `n`, padded on the left to `w` places.
pub fn push_dec_padded(out: &mut Vec<u8>, n: u64, w: usize, b: u8)
    ensures
        final(out)@ == old(out)@ + pad_left(dec(n as nat), w as int, b),
{
    let mut digits: Vec<u8> = Vec::new();
    push_dec(&mut digits, n);
    assert(digits@ =~= dec(n as nat));
    push_padded(out, digits.as_slice(), w, b);
}

/// Leading zeros do not change the number that digits denote.
pub proof fn lemma_leading_zeros(s: Seq<u8>, n: int)
    requires
        n >= 0,
        all_digits(s),
    ensures
        all_digits(repeated(0x30, n) + s),
        digits_value(repeated(0x30, n) + s) == digits_value(s),
    decreases s.len(), n,
{
    let z = repeated(0x30, n);
    if s.len() == 0 {
        assert(z + s =~= z);
        if n > 0 {
            assert(z.drop_last() =~= repeated(0x30, n - 1));
            assert(repeated(0x30, n - 1) + s =~= repeated(0x30, n - 1));
            lemma_leading_zeros(s, n - 1);
        }
    } else {
        assert((z + s).drop_last() =~= z + s.drop_last());
        assert(all_digits(s.drop_last()));
        lemma_leading_zeros(s.drop_last(), n);
    }
}

/// Reading zero-padded digits gives the number back.
pub proof fn lemma_zero_padded(n: nat, w: int)
    requires
        dec(n).len() <= w,
    ensures
        zero_padded(n, w).len() == w,
        all_digits(zero_padded(n, w)),
        digits_value(zero_padded(n, w)) == n,
        uint_text(zero_padded(n, w)) == Some(n as int),
{
    lemma_dec_value(n);
    lemma_leading_zeros(dec(n), w - dec(n).len());
}

// ---- searching ----

/// Where `b` first occurs in `s`; the length of `s` where it does not.
pub open spec fn first_index(s: Seq<u8>, b: u8) -> int
    decreases s.len(),
{
    if s.len() == 0 || s[0] == b {
        0
    } else {
        1 + first_index(s.skip(1), b)
    }
}

pub proof fn lemma_first_index(s: Seq<u8>, b: u8)
    ensures
        0 <= first_index(s, b) <= s.len(),
        first_index(s, b) < s.len() ==> s[first_index(s, b)] == b,
        forall|j: int| 0 <= j < first_index(s, b) ==> s[j] != b,
    decreases s.len(),
{
    if s.len() != 0 && s[0] != b {
        lemma_first_index(s.skip(1), b);
        assert forall|j: int| 0 <= j < first_index(s, b) implies s[j] != b by {
            if j > 0 {
                assert(s.skip(1)[j - 1] == s[j]);
            }
        }
    }
}

/// The first occurrence is the only place with nothing of the kind before it.
pub proof fn lemma_first_index_is(s: Seq<u8>, b: u8, i: int)
    requires
        0 <= i <= s.len(),
        i < s.len() ==> s[i] == b,
        forall|j: int| 0 <= j < i ==> s[j] != b,
    ensures
        first_index(s, b) == i,
{
    lemma_first_index(s, b);
}

/// Finds the first occurrence of `b` in `s`.
pub fn find_byte(s: &[u8], b: u8) -> (r: usize)
    ensures
        r == first_index(s@, b),
        r <= s@.len(),
{
    let mut i: usize = 0;
    while i < s.len() && s[i] != b
        invariant
            i <= s@.len(),
            forall|j: int| 0 <= j < i ==> s@[j] != b,
        decreases s@.len() - i,
    {
        i += 1;
    }
    proof {
        lemma_first_index_is(s@, b, i as int);
    }
    i
}

/// Whether two byte strings are equal.
pub fn same_bytes(a: &[u8], b: &[u8]) -> (r: bool)
    ensures
        r == (a@ == b@),
{
    if a.len() != b.len() {
        return false;
    }
    let mut i: usize = 0;
    while i < a.len()
        invariant
            i <= a@.len(),
            a@.len() == b@.len(),
            forall|j: int| 0 <= j < i ==> a@[j] == b@[j],
        decreases a@.len() - i,
    {
        if a[i] != b[i] {
            return false;
        }
        i += 1;
    }
    assert(a@ =~= b@);
    true
}

// ---- whitespace ----

/// The length of the whitespace character that `s` begins with, in UTF-8; 0
/// where `s` begins with something else. The characters are those with the
/// Unicode property White_Space.
pub open spec fn ws_len(s: Seq<u8>) -> int {
    if s.len() >= 1 && (9 <= s[0] <= 13 || s[0] == 0x20) {
        1
    } else if s.len() >= 2 && s[0] == 0xc2 && (s[1] == 0x85 || s[1] == 0xa0) {
        2
    } else if s.len() >= 3 && is_wide_ws(s[0], s[1], s[2]) {
        3
    } else {
        0
    }
}

/// Whether three bytes are the UTF-8 form of a whitespace character.
pub open spec fn is_wide_ws(a: u8, b: u8, c: u8) -> bool {
    ||| a == 0xe1 && b == 0x9a && c == 0x80
    ||| a == 0xe2 && b == 0x80 && (0x80 <= c <= 0x8a || c == 0xa8 || c == 0xa9 || c == 0xaf)
    ||| a == 0xe2 && b == 0x81 && c == 0x9f
    ||| a == 0xe3 && b == 0x80 && c == 0x80
}

/// The length of the whitespace character that `s` ends with; 0 where it ends
/// with something else.
pub open spec fn ws_end_len(s: Seq<u8>) -> int {
    let n = s.len() as int;
    if n >= 1 && (9 <= s[n - 1] <= 13 || s[n - 1] == 0x20) {
        1
    } else if n >= 2 && s[n - 2] == 0xc2 && (s[n - 1] == 0x85 || s[n - 1] == 0xa0) {
        2
    } else if n >= 3 && is_wide_ws(s[n - 3], s[n - 2], s[n - 1]) {
        3
    } else {
        0
    }
}

/// `s` without the whitespace in front.
pub open spec fn trim_start(s: Seq<u8>) -> Seq<u8>
    decreases s.len(),
{
    if ws_len(s) > 0 {
        trim_start(s.skip(ws_len(s)))
    } else {
        s
    }
}

/// `s` without the whitespace at the end.
pub open spec fn trim_end(s: Seq<u8>) -> Seq<u8>
    decreases s.len(),
{
    if ws_end_len(s) > 0 {
        trim_end(s.take(s.len() - ws_end_len(s)))
    } else {
        s
    }
}

/// `s` without the whitespace in front and at the end.
pub open spec fn trimmed(s: Seq<u8>) -> Seq<u8> {
    trim_end(trim_start(s))
}

/// How many bytes of `s` come before its first whitespace character.
pub open spec fn token_len(s: Seq<u8>) -> int
    decreases s.len(),
{
    if s.len() == 0 || ws_len(s) > 0 {
        0
    } else {
        1 + token_len(s.skip(1))
    }
}

pub proof fn lemma_token_len(s: Seq<u8>)
    ensures
        0 <= token_len(s) <= s.len(),
        s.len() > 0 && ws_len(s) == 0 ==> token_len(s) > 0,
    decreases s.len(),
{
    if s.len() != 0 && ws_len(s) == 0 {
        lemma_token_len(s.skip(1));
    }
}

pub proof fn lemma_trim_start_len(s: Seq<u8>)
    ensures
        trim_start(s).len() <= s.len(),
        ws_len(trim_start(s)) == 0,
    decreases s.len(),
{
    if ws_len(s) > 0 {
        lemma_trim_start_len(s.skip(ws_len(s)));
    }
}

/// The fields of `s`: its maximal runs without whitespace, in order.
pub open spec fn fields(s: Seq<u8>) -> Seq<Seq<u8>>
    decreases s.len(),
{
    let t = trim_start(s);
    if t.len() == 0 {
        Seq::empty()
    } else {
        let n = token_len(t);
        proof {
            lemma_trim_start_len(s);
            lemma_token_len(t);
        }
        seq![t.take(n)] + fields(t.skip(n))
    }
}

fn ws_len_at(s: &[u8], i: usize) -> (n: usize)
    requires
        i <= s@.len(),
    ensures
        n == ws_len(s@.skip(i as int)),
        n <= s@.len() - i,
{
    let left: usize = s.len() - i;
    if left == 0 {
        return 0;
    }
    let a: u8 = s[i];
    if (9 <= a && a <= 13) || a == 0x20 {
        return 1;
    }
    if left == 1 {
        return 0;
    }
    let b: u8 = s[i + 1];
    if a == 0xc2 && (b == 0x85 || b == 0xa0) {
        return 2;
    }
    if left == 2 {
        return 0;
    }
    if wide_ws(a, b, s[i + 2]) {
        3
    } else {
        0
    }
}

fn wide_ws(a: u8, b: u8, c: u8) -> (r: bool)
    ensures
        r == is_wide_ws(a, b, c),
{
    (a == 0xe1 && b == 0x9a && c == 0x80) || (a == 0xe2 && b == 0x80 && ((0x80 <= c && c <= 0x8a)
        || c == 0xa8 || c == 0xa9 || c == 0xaf)) || (a == 0xe2 && b == 0x81 && c == 0x9f) || (a
        == 0xe3 && b == 0x80 && c == 0x80)
}

pub(crate) fn ws_end_len_at(s: &[u8], lo: usize, hi: usize) -> (n: usize)
    requires
        lo <= hi <= s@.len(),
    ensures
        n == ws_end_len(s@.subrange(lo as int, hi as int)),
        n <= hi - lo,
{
    let left: usize = hi - lo;
    if left == 0 {
        return 0;
    }
    let c: u8 = s[hi - 1];
    if (9 <= c && c <= 13) || c == 0x20 {
        return 1;
    }
    if left == 1 {
        return 0;
    }
    let b: u8 = s[hi - 2];
    if b == 0xc2 && (c == 0x85 || c == 0xa0) {
        return 2;
    }
    if left == 2 {
        return 0;
    }
    if wide_ws(s[hi - 3], b, c) {
        3
    } else {
        0
    }
}

/// Where the first character at or after `i` that is not whitespace begins.
pub(crate) fn skip_ws(s: &[u8], i: usize) -> (r: usize)
    requires
        i <= s@.len(),
    ensures
        i <= r <= s@.len(),
        trim_start(s@.skip(i as int)) == s@.skip(r as int),
{
    let len: usize = s.len();
    let mut r: usize = i;
    loop
        invariant
            i <= r <= s@.len(),
            len == s@.len(),
            trim_start(s@.skip(i as int)) == trim_start(s@.skip(r as int)),
        ensures
            ws_len(s@.skip(r as int)) == 0,
        decreases s@.len() - r,
    {
        let n: usize = ws_len_at(s, r);
        if n == 0 {
            break;
        }
        assert(s@.skip(r as int).skip(n as int) =~= s@.skip(r + n));
        r += n;
    }
    r
}

/// Removes whitespace from both ends.
pub fn trim(s: &[u8]) -> (r: &[u8])
    ensures
        r@ == trimmed(s@),
{
    assert(s@.skip(0) =~= s@);
    let lo: usize = skip_ws(s, 0);
    let mut hi: usize = s.len();
    assert(s@.subrange(lo as int, hi as int) =~= s@.skip(lo as int));
    loop
        invariant
            lo <= hi <= s@.len(),
            trimmed(s@) == trim_end(s@.subrange(lo as int, hi as int)),
        ensures
            ws_end_len(s@.subrange(lo as int, hi as int)) == 0,
        decreases hi - lo,
    {
        let n: usize = ws_end_len_at(s, lo, hi);
        if n == 0 {
            break;
        }
        assert(s@.subrange(lo as int, hi as int).take(hi - lo - n) =~= s@.subrange(
            lo as int,
            hi - n,
        ));
        hi -= n;
    }
    slice_subrange(s, lo, hi)
}

/// The byte strings that a list of slices holds.
pub open spec fn contents(v: Seq<&[u8]>) -> Seq<Seq<u8>> {
    v.map_values(|x: &[u8]| x@)
}

/// Splits `s` into its fields.
pub fn split_fields<'a>(s: &'a [u8]) -> (r: Vec<&'a [u8]>)
    ensures
        contents(r@) == fields(s@),
{
    let mut out: Vec<&'a [u8]> = Vec::new();
    let mut pos: usize = 0;
    assert(s@.skip(0) =~= s@);
    assert(contents(out@) + fields(s@) =~= fields(s@));
    loop
        invariant
            pos <= s@.len(),
            contents(out@) + fields(s@.skip(pos as int)) == fields(s@),
        ensures
            contents(out@) == fields(s@),
        decreases s@.len() - pos,
    {
        let start: usize = skip_ws(s, pos);
        if start == s.len() {
            assert(fields(s@.skip(pos as int)) =~= Seq::empty());
            assert(contents(out@) =~= fields(s@));
            break;
        }
        proof {
            lemma_trim_start_len(s@.skip(pos as int));
            lemma_token_len(s@.skip(start as int));
        }
        let ghost before = out@;
        let end: usize = token_end(s, start);
        let field = slice_subrange(s, start, end);
        assert(field@ =~= s@.skip(start as int).take(end - start));
        out.push(field);
        assert(contents(out@) =~= contents(before).push(field@));
        assert(s@.skip(start as int).skip(end - start) =~= s@.skip(end as int));
        assert(contents(out@) + fields(s@.skip(end as int)) =~= contents(before) + (seq![field@]
            + fields(s@.skip(end as int))));
        pos = end;
    }
    out
}

/// Where the run without whitespace that begins at `start` ends.
pub(crate) fn token_end(s: &[u8], start: usize) -> (r: usize)
    requires
        start <= s@.len(),
    ensures
        r == start + token_len(s@.skip(start as int)),
        r <= s@.len(),
{
    let mut r: usize = start;
    loop
        invariant
            start <= r <= s@.len(),
            token_len(s@.skip(start as int)) == r - start + token_len(s@.skip(r as int)),
        ensures
            token_len(s@.skip(r as int)) == 0,
        decreases s@.len() - r,
    {
        if r == s.len() || ws_len_at(s, r) > 0 {
            break;
        }
        assert(s@.skip(r as int).skip(1) =~= s@.skip(r + 1));
        r += 1;
    }
    r
}

/// The first field of `s`, if it has one.
pub fn first_field(s: &[u8]) -> (r: Option<&[u8]>)
    ensures
        r is Some <==> fields(s@).len() > 0,
        r matches Some(f) ==> f@ == fields(s@)[0],
{
    let v = split_fields(s);
    assert(contents(v@).len() == v@.len());
    if v.len() == 0 {
        None
    } else {
        assert(contents(v@)[0] == v@[0]@);
        Some(v[0])
    }
}

// ---- strings ----

/// What `String::from_utf8_lossy` makes of bytes.
pub uninterp spec fn lossy_text(b: Seq<u8>) -> Seq<char>;

/// The text of `b`, by [`String::from_utf8_lossy`]. Bytes that are valid UTF-8
/// become the characters that they encode; each sequence that is not becomes a
/// replacement character.
#[verifier::external_body]
pub(crate) fn text_of(b: &[u8]) -> (r: String)
    ensures
        r@ == lossy_text(b@),
        valid_utf8(b@) ==> encode_utf8(r@) == b@,
{
    String::from_utf8_lossy(b).into_owned()
}

/// How a string is shown in quotes, by the `Debug` form of `str`.
pub uninterp spec fn quoted_text(s: Seq<char>) -> Seq<char>;

/// `s` in quotes, with its special characters escaped: `format!("{:?}", s)`.
#[verifier::external_body]
pub(crate) fn quoted(s: &str) -> (r: String)
    ensures
        r@ == quoted_text(s@),
{
    format!("{:?}", s)
}

/// The bytes of a string.
pub open spec fn utf8(s: Seq<char>) -> Seq<u8> {
    encode_utf8(s)
}

/// Whether all bytes are ASCII.
pub open spec fn is_ascii(b: Seq<u8>) -> bool {
    forall|i: int| 0 <= i < b.len() ==> #[trigger] b[i] < 0x80
}

/// ASCII bytes are valid UTF-8.
pub proof fn lemma_ascii_valid(b: Seq<u8>)
    requires
        is_ascii(b),
    ensures
        valid_utf8(b),
{
    lemma_as_chars(b);
    encode_utf8_valid_utf8(as_chars(b));
}

/// ASCII bytes as the characters that they stand for.
pub open spec fn as_chars(b: Seq<u8>) -> Seq<char> {
    Seq::new(b.len(), |i: int| b[i] as char)
}

/// The text of ASCII bytes.
pub fn ascii_text(b: &[u8]) -> (r: String)
    requires
        is_ascii(b@),
    ensures
        utf8(r@) == b@,
        r@ == as_chars(b@),
{
    proof {
        lemma_ascii_valid(b@);
        lemma_as_chars(b@);
    }
    let r = text_of(b);
    proof {
        encode_utf8_decode_utf8(r@);
        encode_utf8_decode_utf8(as_chars(b@));
    }
    r
}

/// ASCII characters are encoded as themselves.
pub proof fn lemma_as_chars(b: Seq<u8>)
    requires
        is_ascii(b),
    ensures
        utf8(as_chars(b)) == b,
{
    let chars = as_chars(b);
    assert(is_ascii_chars(chars));
    is_ascii_chars_encode_utf8(chars);
    assert(encode_utf8(chars) =~= b);
}

/// A number in decimal.
pub open spec fn number_text(n: nat) -> Seq<char> {
    as_chars(dec(n))
}

/// A number in decimal.
pub fn number_string(n: u64) -> (r: String)
    ensures
        r@ == number_text(n as nat),
{
    let mut out: Vec<u8> = Vec::new();
    push_dec(&mut out, n);
    proof {
        lemma_dec_value(n as nat);
        assert(out@ =~= dec(n as nat));
    }
    ascii_text(out.as_slice())
}

/// `prefix` with a number in decimal behind it.
pub fn with_number(prefix: &str, n: u64) -> (r: String)
    ensures
        r@ == prefix@ + number_text(n as nat),
{
    prefix.to_owned().concat(number_string(n).as_str())
}

/// `prefix` with `s` in quotes behind it.
pub fn with_quoted(prefix: &str, s: &str) -> (r: String)
    ensures
        r@ == prefix@ + quoted_text(s@),
{
    prefix.to_owned().concat(quoted(s).as_str())
}

/// `b` as a string where it is valid UTF-8, the empty string where it is not:
/// [`std::str::from_utf8`], whose error is answered with the empty string.
#[verifier::external_body]
pub(crate) fn utf8_or_empty(b: &[u8]) -> (r: &str)
    ensures
        valid_utf8(b@) ==> utf8(r@) == b@,
        !valid_utf8(b@) ==> r@.len() == 0,
{
    std::str::from_utf8(b).unwrap_or("")
}

} // verus!
