//! Writing a RINEX observation file.
//!
//! The numbers of a file come in as text: a value with three decimals, a
//! coordinate with four, the interval with three. What is laid out here is
//! everything around them.

use crate::calendar::{lemma_civil_days, lemma_date_unique, lemma_epoch_days_ordered};
use crate::error::{Error, Result};
use crate::metadata::{Metadata, MetadataView};
use crate::obs::{
    id_text, lemma_civil_unique, lemma_year_range, Civil, GpsTime, Instant, ObsCode, SatId,
    SignalObservation, TICK_NS,
};
use crate::rinexobs::{
    lemma_field_index_bound, lemma_record_index_bound, at_time, build_obs_file, built, code_lists,
    codes_listed, epoch_views, epochs_of, fields_of, first_invalid, frq_listed, id_error, slipped,
    with_fields, with_record, field_of, find_field, in_time_order, records, system_index,
    system_rank, Epoch, EpochView, ObsField, ObsFile, SatRecord, SatRecordView, SYSTEM_ORDER,
};
use crate::text::{
    dec, pad_left, push_bytes, push_dec, push_dec_padded, push_padded, push_repeated, repeated, utf8,
    zero_padded,
};
use vstd::prelude::*;
use vstd::slice::slice_subrange;

verus! {

// ---- characters and columns ----

/// Whether a byte of UTF-8 goes on with a character.
pub open spec fn is_continuation(b: u8) -> bool {
    0x80 <= b <= 0xbf
}

fn continuation(b: u8) -> (r: bool)
    ensures
        r == is_continuation(b),
{
    0x80 <= b && b <= 0xbf
}

/// How many characters a text has.
pub open spec fn char_count(s: Seq<u8>) -> int
    decreases s.len(),
{
    if s.len() == 0 {
        0
    } else {
        char_count(s.drop_last()) + if is_continuation(s.last()) {
            0int
        } else {
            1int
        }
    }
}

/// How many bytes the first `n` characters of a text have.
pub open spec fn chars_len(s: Seq<u8>, n: int) -> int
    decreases s.len(),
{
    if s.len() == 0 {
        0
    } else if char_count(s) <= n {
        s.len() as int
    } else {
        chars_len(s.drop_last(), n)
    }
}

/// The first `n` characters of a text.
pub open spec fn take_chars(s: Seq<u8>, n: int) -> Seq<u8> {
    s.take(chars_len(s, n))
}

/// A text with blanks behind it, up to `w` characters.
pub open spec fn pad_right(s: Seq<u8>, w: int) -> Seq<u8> {
    s + repeated(0x20, w - char_count(s))
}

/// A text in a column of `w` characters: what is longer is cut off, what is
/// shorter has blanks behind it.
pub open spec fn column(s: Seq<u8>, w: int) -> Seq<u8> {
    pad_right(take_chars(s, w), w)
}

proof fn lemma_char_count(s: Seq<u8>)
    ensures
        0 <= char_count(s) <= s.len(),
    decreases s.len(),
{
    if s.len() > 0 {
        lemma_char_count(s.drop_last());
    }
}

fn count_chars(s: &[u8]) -> (r: usize)
    ensures
        r == char_count(s@),
{
    let mut n: usize = 0;
    let mut i: usize = 0;
    while i < s.len()
        invariant
            i <= s@.len(),
            n <= i,
            n == char_count(s@.take(i as int)),
        decreases s@.len() - i,
    {
        proof {
            assert(s@.take(i + 1).drop_last() =~= s@.take(i as int));
        }
        if !continuation(s[i]) {
            n += 1;
        }
        i += 1;
    }
    assert(s@.take(i as int) =~= s@);
    n
}

proof fn lemma_chars_len(s: Seq<u8>, i: int, n: int)
    requires
        0 <= i <= s.len(),
        char_count(s.take(i)) <= n,
        i < s.len() ==> char_count(s.take(i + 1)) > n,
    ensures
        chars_len(s, n) == i,
    decreases s.len(),
{
    if i == s.len() {
        assert(s.take(i) =~= s);
    } else {
        lemma_count_grows(s, i + 1);
        let p = s.drop_last();
        assert(p.take(i) =~= s.take(i));
        if i < p.len() {
            assert(p.take(i + 1) =~= s.take(i + 1));
        }
        lemma_chars_len(p, i, n);
    }
}

proof fn lemma_count_grows(s: Seq<u8>, i: int)
    requires
        0 <= i <= s.len(),
    ensures
        char_count(s.take(i)) <= char_count(s),
    decreases s.len() - i,
{
    if i < s.len() {
        lemma_count_grows(s, i + 1);
        assert(s.take(i + 1).drop_last() =~= s.take(i));
    } else {
        assert(s.take(i) =~= s);
    }
}

/// The first `n` characters of a text.
fn first_chars(s: &[u8], n: usize) -> (r: &[u8])
    requires
        n < usize::MAX,
    ensures
        r@ == take_chars(s@, n as int),
{
    let mut count: usize = 0;
    let mut i: usize = 0;
    assert(s@.take(0).len() == 0);
    while i < s.len()
        invariant
            i <= s@.len(),
            count == char_count(s@.take(i as int)),
            count <= n,
            n < usize::MAX,
        decreases s@.len() - i,
    {
        proof {
            assert(s@.take(i + 1).drop_last() =~= s@.take(i as int));
        }
        if !continuation(s[i]) {
            if count == n {
                proof {
                    lemma_chars_len(s@, i as int, n as int);
                }
                return slice_subrange(s, 0, i);
            }
            count += 1;
        }
        i += 1;
    }
    proof {
        lemma_chars_len(s@, i as int, n as int);
        assert(s@.take(i as int) =~= s@);
    }
    s
}

fn push_pad_right(out: &mut Vec<u8>, s: &[u8], w: usize)
    ensures
        final(out)@ == old(out)@ + pad_right(s@, w as int),
{
    push_bytes(out, s);
    let n: usize = count_chars(s);
    if n < w {
        push_repeated(out, 0x20, w - n);
    }
    assert(out@ =~= old(out)@ + pad_right(s@, w as int));
}

fn push_column(out: &mut Vec<u8>, s: &[u8], w: usize)
    requires
        w < usize::MAX,
    ensures
        final(out)@ == old(out)@ + column(s@, w as int),
{
    push_pad_right(out, first_chars(s, w), w);
}

/// The last place at or before `k` where a character begins.
pub open spec fn boundary(s: Seq<u8>, k: int) -> int
    decreases k,
{
    if k <= 0 || !is_continuation(s[k]) {
        k
    } else {
        boundary(s, k - 1)
    }
}

/// A text cut to `n` bytes, at the begin of a character.
pub open spec fn cut(s: Seq<u8>, n: int) -> Seq<u8> {
    if s.len() > n {
        s.take(boundary(s, n))
    } else {
        s
    }
}

pub fn cut_bytes(s: &[u8], n: usize) -> (r: &[u8])
    ensures
        r@ == cut(s@, n as int),
{
    if s.len() <= n {
        return s;
    }
    let mut k: usize = n;
    while k > 0 && continuation(s[k])
        invariant
            k <= n < s@.len(),
            boundary(s@, n as int) == boundary(s@, k as int),
        decreases k,
    {
        k -= 1;
    }
    let r = slice_subrange(s, 0, k);
    assert(r@ =~= s@.take(k as int));
    r
}

/// A line of the header: 60 columns of content and 20 of label.
pub open spec fn header_text(content: Seq<u8>, label: Seq<u8>) -> Seq<u8> {
    pad_right(cut(content, 60), 60) + pad_right(label, 20) + seq![0x0au8]
}

/// Appends a line of the header.
pub fn header_line(out: &mut Vec<u8>, content: &[u8], label: &str)
    ensures
        final(out)@ == old(out)@ + header_text(content@, utf8(label@)),
{
    push_pad_right(out, cut_bytes(content, 60), 60);
    push_pad_right(out, label.as_bytes(), 20);
    out.push(0x0a);
    assert(out@ =~= old(out)@ + header_text(content@, utf8(label@)));
}

// ---- numbers and times ----

/// A number in decimal, with a minus sign where it is negative.
pub open spec fn signed_dec(n: int) -> Seq<u8> {
    if n < 0 {
        seq![0x2du8] + dec((-n) as nat)
    } else {
        dec(n as nat)
    }
}

pub fn signed_bytes(n: i64) -> (r: Vec<u8>)
    requires
        n > i64::MIN,
    ensures
        r@ == signed_dec(n as int),
{
    let mut out: Vec<u8> = Vec::new();
    if n < 0 {
        out.push(0x2d);
        push_dec(&mut out, (-n) as u64);
    } else {
        push_dec(&mut out, n as u64);
    }
    assert(out@ =~= signed_dec(n as int));
    out
}

/// A year in at least four places, the minus sign of a negative one included.
pub open spec fn year_text(y: int) -> Seq<u8> {
    if y < 0 {
        seq![0x2du8] + zero_padded((-y) as nat, 3)
    } else {
        zero_padded(y as nat, 4)
    }
}

/// Appends a year.
pub fn push_year(out: &mut Vec<u8>, y: i64)
    requires
        y > i64::MIN,
    ensures
        final(out)@ == old(out)@ + year_text(y as int),
{
    if y < 0 {
        out.push(0x2d);
        push_dec_padded(out, (-y) as u64, 3, 0x30);
    } else {
        push_dec_padded(out, y as u64, 4, 0x30);
    }
    assert(out@ =~= old(out)@ + year_text(y as int));
}

/// The civil time of a tick.
pub open spec fn civil_at(t: GpsTime) -> Civil {
    choose|c: Civil| #![trigger c.ordinary()] c.ordinary() && c.gps_ns() == t.0 * TICK_NS
}

/// Every tick that can be counted in nanoseconds has a civil time.
pub proof fn lemma_civil_at(t: GpsTime)
    requires
        t.in_range(),
    ensures
        civil_at(t).ordinary(),
        civil_at(t).gps_ns() == t.0 * TICK_NS,
        civil_at(t).nanos as int % 100 == 0,
        1687 <= civil_at(t).year <= 2272,
{
    let ns = t.0 * TICK_NS;
    let unix = ns / 1_000_000_000 + crate::obs::EPOCH_UNIX;
    let days = unix / 86400;
    let sod = unix % 86400;
    let (y, m, d) = crate::calendar::lemma_date_of(days);
    crate::calendar::lemma_civil_days(y, m, d);
    crate::obs::lemma_day_in_years(y, m, d, days);
    let c = Civil {
        year: y as i64,
        month: m as u32,
        day: d as u32,
        hour: (sod / 3600) as u32,
        minute: ((sod % 3600) / 60) as u32,
        second: (sod % 60) as u32,
        nanos: (ns % 1_000_000_000) as u32,
    };
    assert(c.days() == days);
    assert(c.unix() == unix);
    assert(c.ordinary());
    assert(c.gps_ns() == ns);
    crate::obs::lemma_tick_civil(t, civil_at(t));
}

/// The civil time of an instant.
pub open spec fn civil_of(d: Instant) -> Civil {
    choose|c: Civil|
        #![trigger c.on_clock()]
        c.on_clock() && c.unix() == d.secs && c.nanos == d.nanos
}

fn tick_civil(t: GpsTime) -> (c: Civil)
    requires
        t.in_range(),
    ensures
        c == civil_at(t),
        c.ordinary(),
        1687 <= c.year <= 2272,
{
    let c = t.civil();
    proof {
        lemma_civil_unique(c, civil_at(t));
        lemma_year_range(c);
    }
    c
}

/// The seconds of a minute with seven decimals, in ten places.
pub open spec fn second_text(c: Civil) -> Seq<u8> {
    zero_padded(c.second as nat, 2) + seq![0x2eu8] + zero_padded(c.nanos as nat / 100, 7)
}

fn second_field(c: &Civil) -> (r: Vec<u8>)
    ensures
        r@ == second_text(*c),
{
    let mut out: Vec<u8> = Vec::new();
    push_dec_padded(&mut out, c.second as u64, 2, 0x30);
    out.push(0x2e);
    push_dec_padded(&mut out, (c.nanos / 100) as u64, 7, 0x30);
    assert(out@ =~= second_text(*c));
    out
}

/// A number in two digits, at the right end of six places.
pub open spec fn two_in_six(n: nat) -> Seq<u8> {
    pad_left(zero_padded(n, 2), 6, 0x20)
}

fn push_two_in_six(out: &mut Vec<u8>, n: u32)
    ensures
        final(out)@ == old(out)@ + two_in_six(n as nat),
{
    let mut digits: Vec<u8> = Vec::new();
    push_dec_padded(&mut digits, n as u64, 2, 0x30);
    assert(digits@ =~= zero_padded(n as nat, 2));
    push_padded(out, digits.as_slice(), 6, 0x20);
}

/// The time in a header line, in GPS time.
pub open spec fn time_text(c: Civil) -> Seq<u8> {
    pad_left(signed_dec(c.year as int), 6, 0x20) + two_in_six(c.month as nat) + two_in_six(
        c.day as nat,
    ) + two_in_six(c.hour as nat) + two_in_six(c.minute as nat) + pad_left(
        second_text(c),
        13,
        0x20,
    ) + utf8("     GPS"@)
}

/// Appends a header line with a time.
fn write_time_header(out: &mut Vec<u8>, t: GpsTime, label: &str)
    requires
        t.in_range(),
    ensures
        final(out)@ == old(out)@ + header_text(time_text(civil_at(t)), utf8(label@)),
{
    let c = tick_civil(t);
    let mut line: Vec<u8> = Vec::new();
    let year = signed_bytes(c.year);
    push_padded(&mut line, year.as_slice(), 6, 0x20);
    push_two_in_six(&mut line, c.month);
    push_two_in_six(&mut line, c.day);
    push_two_in_six(&mut line, c.hour);
    push_two_in_six(&mut line, c.minute);
    let sec = second_field(&c);
    push_padded(&mut line, sec.as_slice(), 13, 0x20);
    push_bytes(&mut line, "     GPS".as_bytes());
    assert(line@ =~= time_text(c));
    header_line(out, line.as_slice(), label);
}

/// An instant has one civil time.
pub proof fn lemma_instant_civil(a: Civil, b: Civil)
    requires
        a.on_clock(),
        b.on_clock(),
        a.unix() == b.unix(),
        a.nanos == b.nanos,
    ensures
        a == b,
{
    lemma_civil_days(a.year as int, a.month as int, a.day as int);
    lemma_civil_days(b.year as int, b.month as int, b.day as int);
    assert(a.days() == b.days());
    lemma_date_unique(
        a.year as int,
        a.month as int,
        a.day as int,
        b.year as int,
        b.month as int,
        b.day as int,
    );
}

pub proof fn lemma_instant_year(c: Civil)
    requires
        c.on_clock(),
        c.unix() >= i64::MIN,
    ensures
        c.year >= -300_000_000_000,
{
    lemma_civil_days(c.year as int, c.month as int, c.day as int);
    if c.year < -300_000_000_000 {
        lemma_epoch_days_ordered(
            c.year as int,
            c.month as int,
            c.day as int,
            -300_000_000_000,
            1,
            1,
        );
        reveal_with_fuel(crate::calendar::days_before_month, 2);
    }
}

/// The date of a run: `YYYYMMDD HHMMSS UTC`.
pub open spec fn run_date_text(c: Civil) -> Seq<u8> {
    year_text(c.year as int) + zero_padded(c.month as nat, 2) + zero_padded(c.day as nat, 2)
        + seq![0x20u8] + zero_padded(c.hour as nat, 2) + zero_padded(c.minute as nat, 2)
        + zero_padded(c.second as nat, 2) + utf8(" UTC"@)
}

/// The date of a run.
pub fn format_run_date(d: Instant) -> (r: Vec<u8>)
    requires
        d.day_fits(),
    ensures
        r@ == run_date_text(civil_of(d)),
{
    let c = d.civil();
    proof {
        lemma_instant_civil(c, civil_of(d));
        lemma_instant_year(c);
    }
    let mut out: Vec<u8> = Vec::new();
    push_year(&mut out, c.year);
    push_dec_padded(&mut out, c.month as u64, 2, 0x30);
    push_dec_padded(&mut out, c.day as u64, 2, 0x30);
    out.push(0x20);
    push_dec_padded(&mut out, c.hour as u64, 2, 0x30);
    push_dec_padded(&mut out, c.minute as u64, 2, 0x30);
    push_dec_padded(&mut out, c.second as u64, 2, 0x30);
    push_bytes(&mut out, " UTC".as_bytes());
    assert(out@ =~= run_date_text(c));
    out
}

// ---- the header ----

/// Which systems have codes, in the order of a file.
pub open spec fn systems_used(codes: Seq<Seq<ObsCode>>) -> Seq<int>
    decreases codes.len(),
{
    if codes.len() == 0 {
        Seq::empty()
    } else {
        let before = systems_used(codes.drop_last());
        if codes.last().len() > 0 {
            before.push(codes.len() - 1)
        } else {
            before
        }
    }
}

/// The systems that have codes, in the order of a file.
pub fn ordered_systems(codes: &Vec<Vec<ObsCode>>) -> (r: Vec<usize>)
    ensures
        r@.map_values(|k: usize| k as int) == systems_used(code_lists(codes@)),
        forall|i: int| 0 <= i < r@.len() ==> #[trigger] r@[i] < codes@.len(),
{
    let mut out: Vec<usize> = Vec::new();
    let mut k: usize = 0;
    let ghost lists = code_lists(codes@);
    assert(out@.map_values(|k: usize| k as int) =~= systems_used(lists.take(0)));
    while k < codes.len()
        invariant
            k <= codes@.len(),
            lists == code_lists(codes@),
            out@.map_values(|k: usize| k as int) == systems_used(lists.take(k as int)),
            forall|i: int| 0 <= i < out@.len() ==> #[trigger] out@[i] < codes@.len(),
        decreases codes@.len() - k,
    {
        let ghost before = out@;
        proof {
            assert(lists.take(k + 1).drop_last() =~= lists.take(k as int));
            assert(lists.take(k + 1).last() == codes@[k as int]@);
        }
        if codes[k].len() > 0 {
            out.push(k);
            assert(out@.map_values(|k: usize| k as int) =~= before.map_values(
                |k: usize| k as int,
            ).push(k as int));
        }
        k += 1;
    }
    assert(lists.take(k as int) =~= lists);
    out
}

/// How the systems of a file are named: by name where there is one, else as
/// mixed.
pub open spec fn system_title(systems: Seq<int>) -> Seq<char> {
    if systems.len() != 1 {
        "M: Mixed"@
    } else if systems[0] == 0 {
        "G: GPS"@
    } else if systems[0] == 1 {
        "R: GLONASS"@
    } else if systems[0] == 2 {
        "E: Galileo"@
    } else if systems[0] == 3 {
        "J: QZSS"@
    } else if systems[0] == 4 {
        "C: BDS"@
    } else if systems[0] == 5 {
        "I: NavIC"@
    } else if systems[0] == 6 {
        "S: SBAS"@
    } else {
        "M: Mixed"@
    }
}

/// How the systems of a file are named.
pub fn header_system(codes: &Vec<Vec<ObsCode>>) -> (r: &'static str)
    ensures
        r@ == system_title(systems_used(code_lists(codes@))),
{
    let systems = ordered_systems(codes);
    let ghost s = systems@.map_values(|k: usize| k as int);
    if systems.len() != 1 {
        return "M: Mixed";
    }
    let k: usize = systems[0];
    assert(s[0] == k);
    match k {
        0 => "G: GPS",
        1 => "R: GLONASS",
        2 => "E: Galileo",
        3 => "J: QZSS",
        4 => "C: BDS",
        5 => "I: NavIC",
        6 => "S: SBAS",
        _ => "M: Mixed",
    }
}

/// Codes one after another, each behind a blank.
pub open spec fn code_cells(codes: Seq<ObsCode>) -> Seq<u8>
    decreases codes.len(),
{
    if codes.len() == 0 {
        Seq::empty()
    } else {
        code_cells(codes.drop_last()) + seq![0x20u8] + pad_right(id_text(codes.last().0@), 3)
    }
}

/// How many of `n` things stand on a line that holds `w`.
pub open spec fn on_line(n: int, w: int) -> int {
    if n < w {
        n
    } else {
        w
    }
}

/// The header lines with the codes of a system, from code `i` on: thirteen on a
/// line, the number of codes on the first.
pub open spec fn obs_types_text(sys: u8, codes: Seq<ObsCode>, i: int) -> Seq<u8>
    decreases codes.len() + 13 - i,
{
    if i >= codes.len() {
        Seq::empty()
    } else {
        let front = if i == 0 {
            seq![sys] + pad_left(dec(codes.len()), 5, 0x20)
        } else {
            repeated(0x20, 6)
        };
        let n = on_line(codes.len() - i, 13);
        header_text(front + code_cells(codes.subrange(i, i + n)), utf8("SYS / # / OBS TYPES"@))
            + obs_types_text(sys, codes, i + 13)
    }
}

/// Appends the header lines with the codes of a system.
pub fn write_obs_types(out: &mut Vec<u8>, sys: u8, codes: &[ObsCode])
    ensures
        final(out)@ == old(out)@ + obs_types_text(sys, codes@, 0),
{
    let n: usize = codes.len();
    let mut i: usize = 0;
    while i < n
        invariant
            n == codes@.len(),
            out@ + obs_types_text(sys, codes@, i as int) == old(out)@ + obs_types_text(
                sys,
                codes@,
                0,
            ),
        decreases n + 13 - i,
    {
        let ghost before = out@;
        let mut content: Vec<u8> = Vec::new();
        if i == 0 {
            content.push(sys);
            push_dec_padded(&mut content, n as u64, 5, 0x20);
            assert(content@ =~= seq![sys] + pad_left(dec(n as nat), 5, 0x20));
        } else {
            push_repeated(&mut content, 0x20, 6);
            assert(content@ =~= repeated(0x20, 6));
        }
        let ghost front = content@;
        let end: usize = if n - i < 13 {
            n
        } else {
            i + 13
        };
        let mut j: usize = i;
        assert(front + code_cells(codes@.subrange(i as int, i as int)) =~= front);
        while j < end
            invariant
                i <= j <= end <= n,
                n == codes@.len(),
                content@ == front + code_cells(codes@.subrange(i as int, j as int)),
            decreases end - j,
        {
            let ghost c0 = content@;
            let name = codes[j].as_str();
            content.push(0x20);
            push_pad_right(&mut content, name.as_bytes(), 3);
            proof {
                let part = codes@.subrange(i as int, j + 1);
                assert(part.drop_last() =~= codes@.subrange(i as int, j as int));
                assert(part.last() == codes@[j as int]);
                assert(content@ =~= front + code_cells(part));
            }
            j += 1;
        }
        header_line(out, content.as_slice(), "SYS / # / OBS TYPES");
        assert(out@ + obs_types_text(sys, codes@, i + 13) =~= before + obs_types_text(
            sys,
            codes@,
            i as int,
        ));
        if n - i <= 13 {
            assert(obs_types_text(sys, codes@, i + 13) =~= Seq::empty());
            assert(out@ =~= old(out)@ + obs_types_text(sys, codes@, 0));
            return;
        }
        i += 13;
    }
    assert(obs_types_text(sys, codes@, i as int) =~= Seq::empty());
    assert(out@ =~= old(out)@ + obs_types_text(sys, codes@, 0));
}

/// The header lines with the codes of the first `k` systems.
pub open spec fn all_types_text(codes: Seq<Seq<ObsCode>>, k: int) -> Seq<u8>
    decreases k,
{
    if k <= 0 {
        Seq::empty()
    } else {
        all_types_text(codes, k - 1) + obs_types_text(SYSTEM_ORDER@[k - 1], codes[k - 1], 0)
    }
}

fn write_all_types(out: &mut Vec<u8>, codes: &Vec<Vec<ObsCode>>)
    requires
        codes@.len() == 7,
    ensures
        final(out)@ == old(out)@ + all_types_text(code_lists(codes@), 7),
{
    let ghost lists = code_lists(codes@);
    let mut k: usize = 0;
    assert(out@ =~= old(out)@ + all_types_text(lists, 0));
    while k < 7
        invariant
            k <= 7,
            codes@.len() == 7,
            lists == code_lists(codes@),
            out@ == old(out)@ + all_types_text(lists, k as int),
        decreases 7 - k,
    {
        write_obs_types(out, SYSTEM_ORDER[k], codes[k].as_slice());
        k += 1;
        assert(out@ =~= old(out)@ + all_types_text(lists, k as int));
    }
}

/// The channels of the GLONASS satellites.
pub open spec fn glonass_only(frq: Seq<(SatId, i8)>) -> Seq<(SatId, i8)> {
    frq.filter(|e: (SatId, i8)| e.0.0@[0] == 0x52)
}

/// Satellites and their channels, one after another.
pub open spec fn frq_cells(frq: Seq<(SatId, i8)>) -> Seq<u8>
    decreases frq.len(),
{
    if frq.len() == 0 {
        Seq::empty()
    } else {
        frq_cells(frq.drop_last()) + seq![0x20u8] + pad_right(id_text(frq.last().0.0@), 3)
            + pad_left(signed_dec(frq.last().1 as int), 3, 0x20)
    }
}

/// The header lines with the channels, from the one at `i` on: eight on a line,
/// the number of satellites on the first.
pub open spec fn frq_text(frq: Seq<(SatId, i8)>, i: int) -> Seq<u8>
    decreases frq.len() + 8 - i,
{
    if i >= frq.len() {
        Seq::empty()
    } else {
        let front = if i == 0 {
            pad_left(dec(frq.len()), 3, 0x20)
        } else {
            repeated(0x20, 3)
        };
        let n = on_line(frq.len() - i, 8);
        header_text(front + frq_cells(frq.subrange(i, i + n)), utf8("GLONASS SLOT / FRQ #"@))
            + frq_text(frq, i + 8)
    }
}

fn glonass_channels(frq: &[(SatId, i8)]) -> (r: Vec<(SatId, i8)>)
    ensures
        r@ == glonass_only(frq@),
{
    let mut out: Vec<(SatId, i8)> = Vec::new();
    let mut i: usize = 0;
    let ghost f = |e: (SatId, i8)| e.0.0@[0] == 0x52;
    assert(frq@.take(0).filter(f) =~= Seq::empty()) by {
        reveal(Seq::filter);
    }
    while i < frq.len()
        invariant
            i <= frq@.len(),
            f == (|e: (SatId, i8)| e.0.0@[0] == 0x52),
            out@ == frq@.take(i as int).filter(f),
        decreases frq@.len() - i,
    {
        proof {
            reveal(Seq::filter);
            assert(frq@.take(i + 1).drop_last() =~= frq@.take(i as int));
        }
        if frq[i].0.system() == 0x52 {
            out.push(frq[i]);
        }
        i += 1;
    }
    assert(frq@.take(i as int) =~= frq@);
    out
}

/// Appends the header lines with the channels of the GLONASS satellites.
pub fn write_glonass_freq(out: &mut Vec<u8>, frq: &[(SatId, i8)])
    ensures
        final(out)@ == old(out)@ + frq_text(glonass_only(frq@), 0),
{
    let sats = glonass_channels(frq);
    let ghost all = sats@;
    let n: usize = sats.len();
    let mut i: usize = 0;
    while i < n
        invariant
            n == sats@.len(),
            sats@ == all,
            all == glonass_only(frq@),
            out@ + frq_text(all, i as int) == old(out)@ + frq_text(all, 0),
        decreases n + 8 - i,
    {
        let ghost before = out@;
        let mut content: Vec<u8> = Vec::new();
        if i == 0 {
            push_dec_padded(&mut content, n as u64, 3, 0x20);
            assert(content@ =~= pad_left(dec(n as nat), 3, 0x20));
        } else {
            push_repeated(&mut content, 0x20, 3);
            assert(content@ =~= repeated(0x20, 3));
        }
        let ghost front = content@;
        let end: usize = if n - i < 8 {
            n
        } else {
            i + 8
        };
        let mut j: usize = i;
        assert(front + frq_cells(all.subrange(i as int, i as int)) =~= front);
        while j < end
            invariant
                i <= j <= end <= n,
                n == sats@.len(),
                sats@ == all,
                content@ == front + frq_cells(all.subrange(i as int, j as int)),
            decreases end - j,
        {
            let name = sats[j].0.as_str();
            let channel = signed_bytes(sats[j].1 as i64);
            content.push(0x20);
            push_pad_right(&mut content, name.as_bytes(), 3);
            push_padded(&mut content, channel.as_slice(), 3, 0x20);
            proof {
                let part = all.subrange(i as int, j + 1);
                assert(part.drop_last() =~= all.subrange(i as int, j as int));
                assert(part.last() == all[j as int]);
                assert(content@ =~= front + frq_cells(part));
            }
            j += 1;
        }
        header_line(out, content.as_slice(), "GLONASS SLOT / FRQ #");
        assert(out@ + frq_text(all, i + 8) =~= before + frq_text(all, i as int));
        if n - i <= 8 {
            assert(frq_text(all, i + 8) =~= Seq::empty());
            assert(out@ =~= old(out)@ + frq_text(all, 0));
            return;
        }
        i += 8;
    }
    assert(frq_text(all, i as int) =~= Seq::empty());
    assert(out@ =~= old(out)@ + frq_text(all, 0));
}

/// The text of a number, 0 with four decimals where there is none.
pub open spec fn coordinate(v: Option<[&[u8]; 3]>, i: int) -> Seq<u8> {
    match v {
        Some(x) => x@[i]@,
        None => utf8("0.0000"@),
    }
}

/// Three numbers, each at the right end of fourteen places.
pub open spec fn coordinates(v: Option<[&[u8]; 3]>) -> Seq<u8> {
    pad_left(coordinate(v, 0), 14, 0x20) + pad_left(coordinate(v, 1), 14, 0x20) + pad_left(
        coordinate(v, 2),
        14,
        0x20,
    )
}

fn push_coordinates(out: &mut Vec<u8>, v: &Option<[&[u8]; 3]>)
    ensures
        final(out)@ == old(out)@ + coordinates(*v),
{
    match v {
        Some(x) => {
            push_padded(out, x[0], 14, 0x20);
            push_padded(out, x[1], 14, 0x20);
            push_padded(out, x[2], 14, 0x20);
        },
        None => {
            let zero = "0.0000".as_bytes();
            push_padded(out, zero, 14, 0x20);
            push_padded(out, zero, 14, 0x20);
            push_padded(out, zero, 14, 0x20);
        },
    }
    assert(out@ =~= old(out)@ + coordinates(*v));
}

/// The header lines with the comments.
pub open spec fn comments_text(comments: Seq<Seq<char>>) -> Seq<u8>
    decreases comments.len(),
{
    if comments.len() == 0 {
        Seq::empty()
    } else {
        comments_text(comments.drop_last()) + header_text(utf8(comments.last()), utf8("COMMENT"@))
    }
}

/// A text at the right end of nine places, of which it fills no more.
pub open spec fn version_text(version: Seq<u8>) -> Seq<u8> {
    let v = take_chars(version, 9);
    repeated(0x20, 9 - char_count(v)) + v
}

/// The header lines that say what the file is and where it comes from.
pub open spec fn origin_text(m: MetadataView<&[u8]>, title: Seq<char>) -> Seq<u8> {
    header_text(
        version_text(utf8(m.version)) + utf8("           OBSERVATION DATA    "@) + column(
            utf8(title),
            20,
        ),
        utf8("RINEX VERSION / TYPE"@),
    ) + header_text(
        column(utf8(m.run.program), 20) + column(utf8(m.run.by), 20) + column(
            match m.run.date {
                Some(d) => run_date_text(civil_of(d)),
                None => Seq::empty(),
            },
            20,
        ),
        utf8("PGM / RUN BY / DATE"@),
    ) + comments_text(m.comment)
}

/// The header lines about the station.
pub open spec fn station_text(m: MetadataView<&[u8]>) -> Seq<u8> {
    header_text(utf8(m.marker.name), utf8("MARKER NAME"@)) + header_text(
        utf8(m.marker.number),
        utf8("MARKER NUMBER"@),
    ) + header_text(utf8(m.marker.type_), utf8("MARKER TYPE"@)) + header_text(
        column(utf8(m.observer), 20) + column(utf8(m.agency), 40),
        utf8("OBSERVER / AGENCY"@),
    ) + header_text(
        column(utf8(m.receiver.number), 20) + column(utf8(m.receiver.type_), 20) + column(
            utf8(m.receiver.version),
            20,
        ),
        utf8("REC # / TYPE / VERS"@),
    ) + header_text(
        column(utf8(m.antenna.number), 20) + column(utf8(m.antenna.type_), 20),
        utf8("ANT # / TYPE"@),
    ) + header_text(coordinates(m.approx_position), utf8("APPROX POSITION XYZ"@)) + header_text(
        coordinates(m.antenna_delta),
        utf8("ANTENNA: DELTA H/E/N"@),
    )
}

/// The header line with the interval.
pub open spec fn interval_text(m: MetadataView<&[u8]>) -> Seq<u8> {
    match m.interval {
        Some(x) => header_text(pad_left(x@, 10, 0x20), utf8("INTERVAL"@)),
        None => Seq::empty(),
    }
}

/// The header line with the GLONASS code biases, where there are GLONASS codes.
pub open spec fn bias_text(codes: Seq<Seq<ObsCode>>) -> Seq<u8> {
    if codes[1].len() > 0 {
        header_text(
            utf8(" C1C    0.000 C1P    0.000 C2C    0.000 C2P    0.000"@),
            utf8("GLONASS COD/PHS/BIS"@),
        )
    } else {
        Seq::empty()
    }
}

/// The header line with the leap seconds.
pub open spec fn leap_text(m: MetadataView<&[u8]>) -> Seq<u8> {
    match m.leap_seconds {
        Some(n) => header_text(pad_left(signed_dec(n as int), 6, 0x20), utf8("LEAP SECONDS"@)),
        None => Seq::empty(),
    }
}

/// The header lines about the observations.
pub open spec fn contents_text(
    m: MetadataView<&[u8]>,
    codes: Seq<Seq<ObsCode>>,
    frq: Seq<(SatId, i8)>,
    first: GpsTime,
    last: GpsTime,
) -> Seq<u8> {
    all_types_text(codes, 7) + interval_text(m) + header_text(
        time_text(civil_at(first)),
        utf8("TIME OF FIRST OBS"@),
    ) + header_text(time_text(civil_at(last)), utf8("TIME OF LAST OBS"@)) + frq_text(
        glonass_only(frq),
        0,
    ) + bias_text(codes) + leap_text(m) + header_text(Seq::empty(), utf8("END OF HEADER"@))
}

/// The header of a file.
pub open spec fn whole_header(
    m: MetadataView<&[u8]>,
    codes: Seq<Seq<ObsCode>>,
    frq: Seq<(SatId, i8)>,
    first: GpsTime,
    last: GpsTime,
) -> Seq<u8> {
    origin_text(m, system_title(systems_used(codes))) + station_text(m) + contents_text(
        m,
        codes,
        frq,
        first,
        last,
    )
}

fn write_origin(out: &mut Vec<u8>, meta: &Metadata<&[u8]>, title: &str)
    requires
        meta.run.date matches Some(d) ==> d.day_fits(),
    ensures
        final(out)@ == old(out)@ + origin_text(meta@, title@),
{
    let ghost before = out@;
    let mut line: Vec<u8> = Vec::new();
    let version = first_chars(meta.version.as_str().as_bytes(), 9);
    let n: usize = count_chars(version);
    proof {
        lemma_take_count(utf8(meta.version@), 9);
    }
    push_repeated(&mut line, 0x20, 9 - n);
    push_bytes(&mut line, version);
    assert(line@ =~= version_text(utf8(meta.version@)));
    push_bytes(&mut line, "           OBSERVATION DATA    ".as_bytes());
    push_column(&mut line, title.as_bytes(), 20);
    header_line(out, line.as_slice(), "RINEX VERSION / TYPE");

    let ghost first_line = out@;
    let date = match meta.run.date {
        Some(d) => format_run_date(d),
        None => Vec::new(),
    };
    let mut line: Vec<u8> = Vec::new();
    push_column(&mut line, meta.run.program.as_str().as_bytes(), 20);
    push_column(&mut line, meta.run.by.as_str().as_bytes(), 20);
    push_column(&mut line, date.as_slice(), 20);
    assert(line@ =~= column(utf8(meta.run.program@), 20) + column(utf8(meta.run.by@), 20)
        + column(date@, 20));
    header_line(out, line.as_slice(), "PGM / RUN BY / DATE");

    let ghost head = out@;
    let ghost all = meta@.comment;
    let mut i: usize = 0;
    assert(out@ =~= head + comments_text(all.take(0)));
    while i < meta.comment.len()
        invariant
            i <= meta.comment@.len(),
            all == meta@.comment,
            out@ == head + comments_text(all.take(i as int)),
        decreases meta.comment@.len() - i,
    {
        header_line(out, meta.comment[i].as_str().as_bytes(), "COMMENT");
        i += 1;
        proof {
            assert(all.take(i as int).drop_last() =~= all.take(i - 1));
            assert(all.take(i as int).last() == meta.comment@[i - 1]@);
            assert(out@ =~= head + comments_text(all.take(i as int)));
        }
    }
    assert(all.take(i as int) =~= all);
    proof {
        lemma_join_three(
            before,
            header_text(
                version_text(utf8(meta.version@)) + utf8("           OBSERVATION DATA    "@)
                    + column(utf8(title@), 20),
                utf8("RINEX VERSION / TYPE"@),
            ),
            header_text(
                column(utf8(meta.run.program@), 20) + column(utf8(meta.run.by@), 20) + column(
                    date@,
                    20,
                ),
                utf8("PGM / RUN BY / DATE"@),
            ),
            comments_text(all),
        );
    }
}

pub proof fn lemma_take_count(s: Seq<u8>, n: int)
    requires
        n >= 0,
    ensures
        char_count(take_chars(s, n)) <= n,
        0 <= chars_len(s, n) <= s.len(),
    decreases s.len(),
{
    if s.len() == 0 {
        assert(take_chars(s, n) =~= s);
    } else if char_count(s) <= n {
        assert(take_chars(s, n) =~= s);
    } else {
        lemma_take_count(s.drop_last(), n);
        assert(s.take(chars_len(s, n)) =~= s.drop_last().take(chars_len(s, n)));
    }
}

fn write_station(out: &mut Vec<u8>, meta: &Metadata<&[u8]>)
    ensures
        final(out)@ == old(out)@ + station_text(meta@),
{
    let ghost before = out@;
    header_line(out, meta.marker.name.as_str().as_bytes(), "MARKER NAME");
    header_line(out, meta.marker.number.as_str().as_bytes(), "MARKER NUMBER");
    header_line(out, meta.marker.type_.as_str().as_bytes(), "MARKER TYPE");
    let mut line: Vec<u8> = Vec::new();
    push_column(&mut line, meta.observer.as_str().as_bytes(), 20);
    push_column(&mut line, meta.agency.as_str().as_bytes(), 40);
    assert(line@ =~= column(utf8(meta.observer@), 20) + column(utf8(meta.agency@), 40));
    header_line(out, line.as_slice(), "OBSERVER / AGENCY");
    let mut line: Vec<u8> = Vec::new();
    push_column(&mut line, meta.receiver.number.as_str().as_bytes(), 20);
    push_column(&mut line, meta.receiver.type_.as_str().as_bytes(), 20);
    push_column(&mut line, meta.receiver.version.as_str().as_bytes(), 20);
    assert(line@ =~= column(utf8(meta.receiver.number@), 20) + column(
        utf8(meta.receiver.type_@),
        20,
    ) + column(utf8(meta.receiver.version@), 20));
    header_line(out, line.as_slice(), "REC # / TYPE / VERS");
    let mut line: Vec<u8> = Vec::new();
    push_column(&mut line, meta.antenna.number.as_str().as_bytes(), 20);
    push_column(&mut line, meta.antenna.type_.as_str().as_bytes(), 20);
    assert(line@ =~= column(utf8(meta.antenna.number@), 20) + column(
        utf8(meta.antenna.type_@),
        20,
    ));
    header_line(out, line.as_slice(), "ANT # / TYPE");
    let mut line: Vec<u8> = Vec::new();
    push_coordinates(&mut line, &meta.approx_position);
    assert(line@ =~= coordinates(meta.approx_position));
    header_line(out, line.as_slice(), "APPROX POSITION XYZ");
    let mut line: Vec<u8> = Vec::new();
    push_coordinates(&mut line, &meta.antenna_delta);
    assert(line@ =~= coordinates(meta.antenna_delta));
    header_line(out, line.as_slice(), "ANTENNA: DELTA H/E/N");
    proof {
        lemma_join(
            before,
            header_text(utf8(meta.marker.name@), utf8("MARKER NAME"@)),
            header_text(utf8(meta.marker.number@), utf8("MARKER NUMBER"@)),
            header_text(utf8(meta.marker.type_@), utf8("MARKER TYPE"@)),
            header_text(
                column(utf8(meta.observer@), 20) + column(utf8(meta.agency@), 40),
                utf8("OBSERVER / AGENCY"@),
            ),
            header_text(
                column(utf8(meta.receiver.number@), 20) + column(utf8(meta.receiver.type_@), 20)
                    + column(utf8(meta.receiver.version@), 20),
                utf8("REC # / TYPE / VERS"@),
            ),
            header_text(
                column(utf8(meta.antenna.number@), 20) + column(utf8(meta.antenna.type_@), 20),
                utf8("ANT # / TYPE"@),
            ),
            header_text(coordinates(meta.approx_position), utf8("APPROX POSITION XYZ"@)),
            header_text(coordinates(meta.antenna_delta), utf8("ANTENNA: DELTA H/E/N"@)),
        );
    }
}

fn write_interval(out: &mut Vec<u8>, meta: &Metadata<&[u8]>)
    ensures
        final(out)@ == old(out)@ + interval_text(meta@),
{
    match meta.interval {
        Some(interval) => {
            let mut line: Vec<u8> = Vec::new();
            push_padded(&mut line, interval, 10, 0x20);
            assert(line@ =~= pad_left(interval@, 10, 0x20));
            header_line(out, line.as_slice(), "INTERVAL");
        },
        None => {
            assert(out@ =~= old(out)@ + interval_text(meta@));
        },
    }
}

fn write_bias(out: &mut Vec<u8>, codes: &Vec<Vec<ObsCode>>)
    requires
        codes@.len() == 7,
    ensures
        final(out)@ == old(out)@ + bias_text(code_lists(codes@)),
{
    assert(code_lists(codes@)[1] == codes@[1]@);
    if codes[1].len() > 0 {
        header_line(
            out,
            " C1C    0.000 C1P    0.000 C2C    0.000 C2P    0.000".as_bytes(),
            "GLONASS COD/PHS/BIS",
        );
    } else {
        assert(out@ =~= old(out)@ + bias_text(code_lists(codes@)));
    }
}

fn write_leap(out: &mut Vec<u8>, meta: &Metadata<&[u8]>)
    ensures
        final(out)@ == old(out)@ + leap_text(meta@),
{
    match meta.leap_seconds {
        Some(ls) => {
            let mut line: Vec<u8> = Vec::new();
            let n = signed_bytes(ls as i64);
            push_padded(&mut line, n.as_slice(), 6, 0x20);
            assert(line@ =~= pad_left(signed_dec(ls as int), 6, 0x20));
            header_line(out, line.as_slice(), "LEAP SECONDS");
        },
        None => {
            assert(out@ =~= old(out)@ + leap_text(meta@));
        },
    }
}

proof fn lemma_join(
    z: Seq<u8>,
    a: Seq<u8>,
    b: Seq<u8>,
    c: Seq<u8>,
    d: Seq<u8>,
    e: Seq<u8>,
    f: Seq<u8>,
    g: Seq<u8>,
    h: Seq<u8>,
)
    ensures
        z + a + b + c + d + e + f + g + h == z + (a + b + c + d + e + f + g + h),
{
    assert(z + a + b + c + d + e + f + g + h =~= z + (a + b + c + d + e + f + g + h));
}

proof fn lemma_join_three(z: Seq<u8>, a: Seq<u8>, b: Seq<u8>, c: Seq<u8>)
    ensures
        z + a + b + c == z + (a + b + c),
{
    assert(z + a + b + c =~= z + (a + b + c));
}

fn write_contents(out: &mut Vec<u8>, meta: &Metadata<&[u8]>, f: &ObsFile<&[u8]>)
    requires
        f.codes@.len() == 7,
        f.first.in_range(),
        f.last.in_range(),
    ensures
        final(out)@ == old(out)@ + contents_text(
            meta@,
            code_lists(f.codes@),
            f.frq@,
            f.first,
            f.last,
        ),
{
    let ghost before = out@;
    write_all_types(out, &f.codes);
    write_interval(out, meta);
    write_time_header(out, f.first, "TIME OF FIRST OBS");
    write_time_header(out, f.last, "TIME OF LAST OBS");
    write_glonass_freq(out, f.frq.as_slice());
    write_bias(out, &f.codes);
    write_leap(out, meta);
    let none: Vec<u8> = Vec::new();
    header_line(out, none.as_slice(), "END OF HEADER");
    assert(none@ =~= Seq::<u8>::empty());
    proof {
        lemma_join(
            before,
            all_types_text(code_lists(f.codes@), 7),
            interval_text(meta@),
            header_text(time_text(civil_at(f.first)), utf8("TIME OF FIRST OBS"@)),
            header_text(time_text(civil_at(f.last)), utf8("TIME OF LAST OBS"@)),
            frq_text(glonass_only(f.frq@), 0),
            bias_text(code_lists(f.codes@)),
            leap_text(meta@),
            header_text(Seq::empty(), utf8("END OF HEADER"@)),
        );
    }
}

/// Appends the header of a file.
pub fn write_header(out: &mut Vec<u8>, meta: &Metadata<&[u8]>, f: &ObsFile<&[u8]>)
    requires
        meta.run.date matches Some(d) ==> d.day_fits(),
        f.codes@.len() == 7,
        f.first.in_range(),
        f.last.in_range(),
    ensures
        final(out)@ == old(out)@ + whole_header(
            meta@,
            code_lists(f.codes@),
            f.frq@,
            f.first,
            f.last,
        ),
{
    let ghost before = out@;
    write_origin(out, meta, header_system(&f.codes));
    write_station(out, meta);
    write_contents(out, meta, f);
    proof {
        lemma_join_three(
            before,
            origin_text(meta@, system_title(systems_used(code_lists(f.codes@)))),
            station_text(meta@),
            contents_text(meta@, code_lists(f.codes@), f.frq@, f.first, f.last),
        );
    }
}

// ---- the epochs ----

/// The indicator in a field: a blank where there is none.
pub open spec fn indicator(lli: u8) -> u8 {
    if lli == 0 {
        0x20
    } else {
        (0x30 + lli) as u8
    }
}

/// A field in sixteen columns: the value at the right end of fourteen, the
/// loss-of-lock indicator, and a blank.
pub open spec fn field_text(f: Option<ObsField<&[u8]>>) -> Seq<u8> {
    match f {
        None => repeated(0x20, 16),
        Some(field) => pad_left(
            match field.val {
                Some(v) => v@,
                None => Seq::empty(),
            },
            14,
            0x20,
        ) + seq![indicator(field.lli), 0x20u8],
    }
}

/// Appends a field.
pub fn append_obs_field(line: &mut Vec<u8>, field: &ObsField<&[u8]>)
    requires
        field.lli <= 9,
    ensures
        final(line)@ == old(line)@ + field_text(Some(*field)),
{
    let lli: u8 = if field.lli != 0 {
        0x30 + field.lli
    } else {
        0x20
    };
    match field.val {
        Some(v) => push_padded(line, v, 14, 0x20),
        None => {
            push_repeated(line, 0x20, 14);
            assert(repeated(0x20, 14) =~= pad_left(Seq::empty(), 14, 0x20));
        },
    }
    line.push(lli);
    line.push(0x20);
    assert(line@ =~= old(line)@ + field_text(Some(*field)));
}

/// The fields of a satellite under the codes of its system.
pub open spec fn fields_text(
    fields: Seq<(ObsCode, ObsField<&[u8]>)>,
    codes: Seq<ObsCode>,
) -> Seq<u8>
    decreases codes.len(),
{
    if codes.len() == 0 {
        Seq::empty()
    } else {
        fields_text(fields, codes.drop_last()) + field_text(field_of(fields, codes.last()))
    }
}

/// The codes of the system of a satellite.
pub open spec fn codes_for(codes: Seq<Seq<ObsCode>>, sat: SatId) -> Seq<ObsCode> {
    let k = system_rank(sat.0@[0]);
    if k < codes.len() {
        codes[k]
    } else {
        Seq::empty()
    }
}

/// The line of a satellite.
pub open spec fn sat_text(r: SatRecordView<&[u8]>, codes: Seq<Seq<ObsCode>>) -> Seq<u8> {
    id_text(r.sat.0@) + fields_text(r.fields, codes_for(codes, r.sat)) + seq![0x0au8]
}

/// The lines of satellites.
pub open spec fn sats_text(
    sats: Seq<SatRecordView<&[u8]>>,
    codes: Seq<Seq<ObsCode>>,
) -> Seq<u8>
    decreases sats.len(),
{
    if sats.len() == 0 {
        Seq::empty()
    } else {
        sats_text(sats.drop_last(), codes) + sat_text(sats.last(), codes)
    }
}

/// The line with which an epoch begins, without the blanks at its end: the time,
/// the flag 0, and the number of satellites.
pub open spec fn epoch_head(c: Civil, n: nat) -> Seq<u8> {
    seq![0x3eu8, 0x20u8] + stamp_text(c) + second_text(c) + seq![0x20u8, 0x20u8, 0x30u8]
        + pad_left(dec(n), 3, 0x20)
}

/// The date and the minute in an epoch line, each number with a blank behind it.
pub open spec fn stamp_text(c: Civil) -> Seq<u8> {
    zero_padded(c.year as nat, 4) + seq![0x20u8] + zero_padded(c.month as nat, 2) + seq![0x20u8]
        + zero_padded(c.day as nat, 2) + seq![0x20u8] + zero_padded(c.hour as nat, 2)
        + seq![0x20u8] + zero_padded(c.minute as nat, 2) + seq![0x20u8]
}

/// The line with which an epoch begins.
pub open spec fn epoch_first_line(c: Civil, n: nat) -> Seq<u8> {
    let head = epoch_head(c, n);
    head + repeated(0x20, 56 - head.len()) + seq![0x0au8]
}

/// An epoch of a file.
pub open spec fn epoch_text(e: EpochView<&[u8]>, codes: Seq<Seq<ObsCode>>) -> Seq<u8> {
    epoch_first_line(civil_at(e.t), e.sats.len()) + sats_text(e.sats, codes)
}

/// The epochs of a file.
pub open spec fn epochs_text(
    epochs: Seq<EpochView<&[u8]>>,
    codes: Seq<Seq<ObsCode>>,
) -> Seq<u8>
    decreases epochs.len(),
{
    if epochs.len() == 0 {
        Seq::empty()
    } else {
        epochs_text(epochs.drop_last(), codes) + epoch_text(epochs.last(), codes)
    }
}

/// Whether fields have indicators of one digit.
pub open spec fn digits_only(fields: Seq<(ObsCode, ObsField<&[u8]>)>) -> bool {
    forall|i: int| 0 <= i < fields.len() ==> (#[trigger] fields[i]).1.lli <= 9
}

/// Whether an epoch can be written: its time has a date, and its indicators have
/// one digit.
pub open spec fn writable(e: EpochView<&[u8]>) -> bool {
    &&& e.t.in_range()
    &&& forall|i: int| 0 <= i < e.sats.len() ==> digits_only((#[trigger] e.sats[i]).fields)
}

fn write_satellite(out: &mut Vec<u8>, r: &SatRecord<&[u8]>, codes: &Vec<Vec<ObsCode>>)
    requires
        digits_only(r.fields@),
    ensures
        final(out)@ == old(out)@ + sat_text(r@, code_lists(codes@)),
{
    let ghost before = out@;
    push_bytes(out, r.sat.as_str().as_bytes());
    let ghost head = out@;
    let k: usize = system_index(r.sat.system());
    let ghost l = codes_for(code_lists(codes@), r.sat);
    if k < codes.len() {
        assert(l == codes@[k as int]@);
        let n: usize = codes[k].len();
        let mut j: usize = 0;
        assert(out@ =~= head + fields_text(r.fields@, l.take(0)));
        while j < n
            invariant
                j <= n,
                k < codes@.len(),
                n == l.len(),
                l == codes@[k as int]@,
                digits_only(r.fields@),
                out@ == head + fields_text(r.fields@, l.take(j as int)),
            decreases n - j,
        {
            let code = codes[k][j];
            proof {
                lemma_field_index_bound(r.fields@, code);
                assert(l.take(j + 1).drop_last() =~= l.take(j as int));
                assert(l.take(j + 1).last() == code);
            }
            match find_field(r.fields.as_slice(), code) {
                None => push_repeated(out, 0x20, 16),
                Some(field) => append_obs_field(out, &field),
            }
            j += 1;
            assert(out@ =~= head + fields_text(r.fields@, l.take(j as int)));
        }
        assert(l.take(j as int) =~= l);
    } else {
        assert(out@ =~= head + fields_text(r.fields@, l));
    }
    out.push(0x0a);
    assert(out@ =~= before + sat_text(r@, code_lists(codes@)));
}

fn stamp(c: &Civil) -> (r: Vec<u8>)
    requires
        c.year >= 0,
    ensures
        r@ == stamp_text(*c),
{
    let mut line: Vec<u8> = Vec::new();
    push_dec_padded(&mut line, c.year as u64, 4, 0x30);
    line.push(0x20);
    push_dec_padded(&mut line, c.month as u64, 2, 0x30);
    line.push(0x20);
    push_dec_padded(&mut line, c.day as u64, 2, 0x30);
    line.push(0x20);
    push_dec_padded(&mut line, c.hour as u64, 2, 0x30);
    line.push(0x20);
    push_dec_padded(&mut line, c.minute as u64, 2, 0x30);
    line.push(0x20);
    assert(line@ =~= stamp_text(*c));
    line
}

fn epoch_line(t: GpsTime, n: usize) -> (r: Vec<u8>)
    requires
        t.in_range(),
    ensures
        r@ == epoch_first_line(civil_at(t), n as nat),
{
    let c = tick_civil(t);
    let mut line: Vec<u8> = Vec::new();
    line.push(0x3e);
    line.push(0x20);
    let minute = stamp(&c);
    push_bytes(&mut line, minute.as_slice());
    let sec = second_field(&c);
    push_bytes(&mut line, sec.as_slice());
    line.push(0x20);
    line.push(0x20);
    line.push(0x30);
    push_dec_padded(&mut line, n as u64, 3, 0x20);
    assert(line@ =~= epoch_head(c, n as nat));
    if line.len() < 56 {
        let blanks: usize = 56 - line.len();
        push_repeated(&mut line, 0x20, blanks);
    }
    line.push(0x0a);
    assert(line@ =~= epoch_first_line(c, n as nat));
    line
}

fn write_epoch(out: &mut Vec<u8>, e: &Epoch<&[u8]>, codes: &Vec<Vec<ObsCode>>)
    requires
        writable(e@),
    ensures
        final(out)@ == old(out)@ + epoch_text(e@, code_lists(codes@)),
{
    let ghost before = out@;
    let ghost lists = code_lists(codes@);
    let n: usize = e.sats.len();
    let line = epoch_line(e.t, n);
    push_bytes(out, line.as_slice());
    let ghost start = out@;
    let ghost all = e@.sats;
    let mut i: usize = 0;
    assert(out@ =~= start + sats_text(all.take(0), lists));
    while i < n
        invariant
            i <= n,
            n == e.sats@.len(),
            all == records(e.sats@),
            lists == code_lists(codes@),
            writable(e@),
            all == e@.sats,
            out@ == start + sats_text(all.take(i as int), lists),
        decreases n - i,
    {
        proof {
            assert(all[i as int] == e.sats@[i as int]@);
            assert(all.take(i + 1).drop_last() =~= all.take(i as int));
            assert(all.take(i + 1).last() == all[i as int]);
        }
        write_satellite(out, &e.sats[i], codes);
        i += 1;
        assert(out@ =~= start + sats_text(all.take(i as int), lists));
    }
    assert(all.take(i as int) =~= all);
    assert(out@ =~= before + epoch_text(e@, lists));
}

/// Appends the epochs of a file.
pub fn write_epochs(out: &mut Vec<u8>, f: &ObsFile<&[u8]>)
    requires
        forall|i: int| 0 <= i < f.epochs@.len() ==> writable((#[trigger] f.epochs@[i])@),
    ensures
        final(out)@ == old(out)@ + epochs_text(epoch_views(f.epochs@), code_lists(f.codes@)),
{
    let ghost before = out@;
    let ghost all = epoch_views(f.epochs@);
    let ghost lists = code_lists(f.codes@);
    let mut i: usize = 0;
    assert(out@ =~= before + epochs_text(all.take(0), lists));
    while i < f.epochs.len()
        invariant
            i <= f.epochs@.len(),
            all == epoch_views(f.epochs@),
            lists == code_lists(f.codes@),
            forall|i: int| 0 <= i < f.epochs@.len() ==> writable((#[trigger] f.epochs@[i])@),
            out@ == before + epochs_text(all.take(i as int), lists),
        decreases f.epochs@.len() - i,
    {
        proof {
            assert(all.take(i + 1).drop_last() =~= all.take(i as int));
            assert(all.take(i + 1).last() == f.epochs@[i as int]@);
        }
        write_epoch(out, &f.epochs[i], &f.codes);
        i += 1;
        assert(out@ =~= before + epochs_text(all.take(i as int), lists));
    }
    assert(all.take(i as int) =~= all);
}

// ---- the whole file ----

/// A file: its header and its epochs.
pub open spec fn file_text(
    m: MetadataView<&[u8]>,
    codes: Seq<Seq<ObsCode>>,
    frq: Seq<(SatId, i8)>,
    s: Seq<SignalObservation<&[u8], &[u8]>>,
) -> Seq<u8> {
    whole_header(m, codes, frq, s.first().t, s.last().t) + epochs_text(epochs_of(s), codes)
}

/// Whether `out` is the file of observations that stand in the order of time.
pub open spec fn written(
    m: MetadataView<&[u8]>,
    s: Seq<SignalObservation<&[u8], &[u8]>>,
    out: Seq<u8>,
) -> bool {
    exists|codes: Seq<Seq<ObsCode>>, frq: Seq<(SatId, i8)>|
        #![trigger codes_listed(s, codes), frq_listed(s, frq)]
        {
            &&& codes_listed(s, codes)
            &&& frq_listed(s, frq)
            &&& out == file_text(m, codes, frq, s)
        }
}

/// What becomes of a file: it is written where all satellites and signals are
/// valid; else the first that is not is reported.
pub open spec fn file_result(
    m: MetadataView<&[u8]>,
    s: Seq<SignalObservation<&[u8], &[u8]>>,
    r: Result<Vec<u8>>,
) -> bool {
    let bad = first_invalid(s);
    match r {
        Ok(out) => bad == s.len() && written(m, s, out@),
        Err(Error::Rinex(e)) => bad < s.len() && e@ == id_error(s[bad]),
        Err(_) => false,
    }
}

/// The header facts that go into a file: the version is 3.04 where none is given.
pub open spec fn with_version(m: MetadataView<&[u8]>) -> MetadataView<&[u8]> {
    MetadataView {
        version: if m.version.len() == 0 {
            "3.04"@
        } else {
            m.version
        },
        ..m
    }
}

/// Sorting by time adds no observation.
pub proof fn lemma_time_order_member<F, G>(
    os: Seq<SignalObservation<F, G>>,
    s: Seq<SignalObservation<F, G>>,
    i: int,
)
    requires
        in_time_order(os, s),
        0 <= i < s.len(),
    ensures
        os.contains(s[i]),
{
    let t = s[i].t;
    let f = |o: SignalObservation<F, G>| o.t == t;
    assert(at_time(s, t).contains(s[i])) by {
        lemma_filter_contains(s, f, i);
    }
    assert(at_time(os, t).contains(s[i]));
    let j = choose|j: int| 0 <= j < at_time(os, t).len() && at_time(os, t)[j] == s[i];
    lemma_filter_from(os, f, j);
}

pub proof fn lemma_filter_from<T>(s: Seq<T>, f: spec_fn(T) -> bool, j: int)
    requires
        0 <= j < s.filter(f).len(),
    ensures
        s.contains(s.filter(f)[j]),
    decreases s.len(),
{
    reveal(Seq::filter);
    let p = s.drop_last();
    if j < p.filter(f).len() {
        lemma_filter_from(p, f, j);
        let i = choose|i: int| 0 <= i < p.len() && p[i] == p.filter(f)[j];
        assert(s[i] == s.filter(f)[j]);
    } else {
        assert(s[s.len() - 1] == s.filter(f)[j]);
    }
}

pub proof fn lemma_filter_contains<T>(s: Seq<T>, f: spec_fn(T) -> bool, i: int)
    requires
        0 <= i < s.len(),
        f(s[i]),
    ensures
        s.filter(f).contains(s[i]),
    decreases s.len(),
{
    reveal(Seq::filter);
    if i == s.len() - 1 {
        let p = s.drop_last().filter(f);
        assert(p.push(s.last())[p.len() as int] == s[i]);
    } else {
        lemma_filter_contains(s.drop_last(), f, i);
        let p = s.drop_last().filter(f);
        let j = choose|j: int| 0 <= j < p.len() && p[j] == s[i];
        assert(s.filter(f)[j] == s[i]);
    }
}

proof fn lemma_fields_digits(
    fields: Seq<(ObsCode, ObsField<&[u8]>)>,
    more: Seq<(ObsCode, ObsField<&[u8]>)>,
)
    requires
        digits_only(fields),
        digits_only(more),
    ensures
        digits_only(with_fields(fields, more)),
    decreases more.len(),
{
    if more.len() > 0 {
        assert(digits_only(more.drop_last()));
        lemma_fields_digits(fields, more.drop_last());
        assert(more.last().1.lli <= 9);
    }
}

proof fn lemma_writable(os: Seq<SignalObservation<&[u8], &[u8]>>)
    requires
        forall|i: int| 0 <= i < os.len() ==> (#[trigger] os[i]).t.in_range(),
    ensures
        forall|i: int| 0 <= i < epochs_of(os).len() ==> writable(#[trigger] epochs_of(os)[i]),
    decreases os.len(),
{
    if os.len() > 0 {
        let p = os.drop_last();
        lemma_writable(p);
        let before = epochs_of(p);
        let o = os.last();
        let more = fields_of(o.sig, o.v, slipped(os));
        assert(o.t.in_range());
        assert(digits_only(more));
        let none = Seq::<(ObsCode, ObsField<&[u8]>)>::empty();
        lemma_fields_digits(none, more);
        let sats = if before.len() > 0 && before.last().t == o.t {
            before.last().sats
        } else {
            Seq::empty()
        };
        if before.len() > 0 {
            assert(writable(before.last()));
        }
        lemma_record_index_bound(sats, o.sat);
        assert forall|i: int| 0 <= i < with_record(sats, o.sat, more).len() implies digits_only(
            (#[trigger] with_record(sats, o.sat, more)[i]).fields,
        ) by {
            if i < sats.len() {
                assert(digits_only(sats[i].fields));
                lemma_fields_digits(sats[i].fields, more);
            }
        }
        assert forall|i: int| 0 <= i < epochs_of(os).len() implies writable(
            #[trigger] epochs_of(os)[i],
        ) by {
            if i < before.len() {
                assert(writable(before[i]));
            }
        }
    }
}

/// Writes a complete RINEX observation file. The numbers are given as text: the
/// values with three decimals, the coordinates with four, the interval with
/// three.
pub fn write_observation_file(
    meta: &mut Metadata<&[u8]>,
    obs: &[SignalObservation<&[u8], &[u8]>],
) -> (r: Result<Vec<u8>>)
    requires
        old(meta).run.date matches Some(d) ==> d.day_fits(),
        forall|i: int| 0 <= i < obs@.len() ==> (#[trigger] obs@[i]).t.in_range(),
    ensures
        r is Ok ==> final(meta)@ == with_version(old(meta)@),
        r is Err ==> *final(meta) == *old(meta),
        obs@.len() == 0 ==> (r matches Err(Error::Rinex(e)) && e@ == "rinex: no observations"@),
        obs@.len() > 0 ==> exists|s: Seq<SignalObservation<&[u8], &[u8]>>| #[trigger]
            in_time_order(obs@, s) && file_result(with_version(old(meta)@), s, r),
{
    let built_file = build_obs_file(obs);
    let ghost s = choose|s: Seq<SignalObservation<&[u8], &[u8]>>| #[trigger]
        in_time_order(obs@, s) && built(s, built_file);
    let f = match built_file {
        Ok(f) => f,
        Err(e) => return Err(Error::Rinex(e)),
    };
    proof {
        assert forall|i: int| 0 <= i < s.len() implies (#[trigger] s[i]).t.in_range() by {
            lemma_time_order_member(obs@, s, i);
            let j = choose|j: int| 0 <= j < obs@.len() && obs@[j] == s[i];
            assert(obs@[j].t.in_range());
        }
        lemma_writable(s);
        assert(s[0].t.in_range());
        assert(s[s.len() - 1].t.in_range());
        assert forall|i: int| 0 <= i < f.epochs@.len() implies writable(
            (#[trigger] f.epochs@[i])@,
        ) by {
            assert(epoch_views(f.epochs@)[i] == f.epochs@[i]@);
        }
    }
    if meta.version.as_str().is_empty() {
        meta.version = "3.04".to_owned();
    }
    proof {
        assert(meta@ =~~= with_version(old(meta)@));
    }
    let mut out: Vec<u8> = Vec::new();
    write_header(&mut out, meta, &f);
    write_epochs(&mut out, &f);
    proof {
        let codes = code_lists(f.codes@);
        assert(codes_listed(s, codes) && frq_listed(s, f.frq@));
        assert(out@ =~= file_text(meta@, codes, f.frq@, s));
    }
    Ok(out)
}

} // verus!
