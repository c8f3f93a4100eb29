//! The columns of RINEX lines: what is written in them and what is read from them.

use crate::calendar::{days_before_month, epoch_days, lemma_civil_days};
use crate::cells::{firm, lemma_trimmed};
use crate::columns::{cols, is_float_text};
use crate::keymap::fx_value;
use crate::obs::{
    code_signal, id_text, lemma_civil_unique, sat_number, sat_valid, Civil, GpsTime, ObsCode, SatId,
    SigId, SignalObservation, SignalValues,
};
use crate::reread::{countable, lemma_blank_number, lemma_epoch_time, lemma_padded_number};
use crate::rinex_read::{
    digit_at, first_three, line_observations, new_observation, number_at, parse_epoch_line,
    parse_satellite_observation_line, signal_index, with_field, ObsHeader, ReadObservation, Reading,
};
use crate::rinex_write::{
    civil_at, codes_for, epoch_first_line, epoch_head, epoch_text, epochs_text, field_text,
    fields_text, indicator, lemma_civil_at, sat_text, sats_text, second_text, stamp_text,
    write_epochs,
};
use crate::rinexobs::{
    code_lists, epoch_views, field_index, field_of, EpochView, ObsField, ObsFile, SatRecordView,
};
use crate::text::{dec, int_text, lemma_dec_len, pad_left, repeated, trimmed, zero_padded};
use vstd::prelude::*;

verus! {

// ---- digits ----

/// Whether byte `i` is the digit of `n` at a decimal place.
pub open spec fn digit(s: Seq<u8>, i: int, n: int, place: int) -> bool {
    s[i] == 0x30 + (n / place) % 10
}

/// Whether two bytes from `i` on are the digits of `n`.
pub open spec fn two_digits(s: Seq<u8>, i: int, n: int) -> bool {
    0 <= n < 100 && digit(s, i, n, 10) && digit(s, i + 1, n, 1)
}

/// Whether four bytes from `i` on are the digits of `n`.
pub open spec fn four_digits(s: Seq<u8>, i: int, n: int) -> bool {
    0 <= n < 10_000 && two_digits(s, i, n / 100) && two_digits(s, i + 2, n % 100)
}

/// Whether seven bytes from `i` on are the digits of `n`.
pub open spec fn seven_digits(s: Seq<u8>, i: int, n: int) -> bool {
    &&& 0 <= n < 10_000_000
    &&& digit(s, i, n, 1_000_000)
    &&& digit(s, i + 1, n, 100_000)
    &&& digit(s, i + 2, n, 10_000)
    &&& digit(s, i + 3, n, 1000)
    &&& digit(s, i + 4, n, 100)
    &&& digit(s, i + 5, n, 10)
    &&& digit(s, i + 6, n, 1)
}

/// Whether three bytes from `i` on are the digits of `n` behind blanks.
pub open spec fn three_places(s: Seq<u8>, i: int, n: int) -> bool {
    &&& 0 <= n < 1000
    &&& if n >= 100 {
        digit(s, i, n, 100)
    } else {
        s[i] == 0x20
    }
    &&& if n >= 10 {
        digit(s, i + 1, n, 10)
    } else {
        s[i + 1] == 0x20
    }
    &&& digit(s, i + 2, n, 1)
}

proof fn lemma_padded_step(n: nat, w: int)
    requires
        w >= 2,
        dec(n).len() <= w,
    ensures
        zero_padded(n, w) == zero_padded(n / 10, w - 1).push((0x30 + n % 10) as u8),
        dec(n / 10).len() <= w - 1,
{
    if n < 10 {
        assert(dec(n / 10) =~= seq![0x30u8]);
        assert(zero_padded(n, w) =~= zero_padded(n / 10, w - 1).push((0x30 + n % 10) as u8));
    } else {
        assert(dec(n).len() == dec(n / 10).len() + 1);
        assert(zero_padded(n, w) =~= zero_padded(n / 10, w - 1).push((0x30 + n % 10) as u8));
    }
}

pub proof fn lemma_two(n: nat)
    requires
        n < 100,
    ensures
        zero_padded(n, 2).len() == 2,
        two_digits(zero_padded(n, 2), 0, n as int),
{
    lemma_dec_len(n);
    lemma_padded_step(n, 2);
    assert(zero_padded(n / 10, 1) =~= dec(n / 10));
}

pub proof fn lemma_four(n: nat)
    requires
        n < 10_000,
    ensures
        zero_padded(n, 4).len() == 4,
        four_digits(zero_padded(n, 4), 0, n as int),
{
    lemma_dec_len(n);
    lemma_padded_step(n, 4);
    lemma_padded_step(n / 10, 3);
    lemma_two(n / 100);
    assert((n / 10) / 10 == n / 100);
    let s = zero_padded(n, 4);
    assert(s[0] == zero_padded(n / 100, 2)[0] && s[1] == zero_padded(n / 100, 2)[1]);
    assert(s[2] == 0x30 + (n / 10) % 10);
    assert(s[3] == 0x30 + n % 10);
    assert((n % 100) / 10 == (n / 10) % 10);
    assert((n % 100) % 10 == n % 10);
}

pub proof fn lemma_seven(n: nat)
    requires
        n < 10_000_000,
    ensures
        zero_padded(n, 7).len() == 7,
        seven_digits(zero_padded(n, 7), 0, n as int),
{
    lemma_dec_len(n);
    let a = n / 10;
    let b = a / 10;
    let c = b / 10;
    let d = c / 10;
    let e = d / 10;
    let f = e / 10;
    lemma_padded_step(n, 7);
    lemma_padded_step(a, 6);
    lemma_padded_step(b, 5);
    lemma_padded_step(c, 4);
    lemma_padded_step(d, 3);
    lemma_padded_step(e, 2);
    assert(f < 10);
    assert(zero_padded(f, 1) =~= seq![(0x30 + f) as u8]);
    assert(b == n / 100 && c == n / 1000 && d == n / 10_000 && e == n / 100_000 && f == n
        / 1_000_000);
    let s = zero_padded(n, 7);
    assert(s[6] == 0x30 + n % 10);
    assert(s[5] == 0x30 + a % 10);
    assert(s[4] == 0x30 + b % 10);
    assert(s[3] == 0x30 + c % 10);
    assert(s[2] == 0x30 + d % 10);
    assert(s[1] == 0x30 + e % 10);
    assert(s[0] == 0x30 + f);
}

pub proof fn lemma_three(n: nat)
    requires
        n < 1000,
    ensures
        pad_left(dec(n), 3, 0x20).len() == 3,
        three_places(pad_left(dec(n), 3, 0x20), 0, n as int),
{
    lemma_dec_len(n);
    let s = pad_left(dec(n), 3, 0x20);
    if n < 10 {
        assert(dec(n) =~= seq![(0x30 + n) as u8]);
    } else if n < 100 {
        assert(dec(n / 10) =~= seq![(0x30 + n / 10) as u8]);
        assert(dec(n) =~= seq![(0x30 + n / 10) as u8, (0x30 + n % 10) as u8]);
    } else {
        assert((n / 10) / 10 == n / 100);
        assert(dec(n / 100) =~= seq![(0x30 + n / 100) as u8]);
        assert(dec(n / 10) =~= seq![(0x30 + n / 100) as u8, (0x30 + (n / 10) % 10) as u8]);
        assert(dec(n) =~= seq![
            (0x30 + n / 100) as u8,
            (0x30 + (n / 10) % 10) as u8,
            (0x30 + n % 10) as u8,
        ]);
    }
}

// ---- times ----

/// The days of a year before one of its months.
pub open spec fn month_start(y: int, m: int) -> int {
    let leap = if y % 4 == 0 && (y % 100 != 0 || y % 400 == 0) {
        1int
    } else {
        0int
    };
    if m <= 1 {
        0
    } else if m == 2 {
        31
    } else if m == 3 {
        59 + leap
    } else if m == 4 {
        90 + leap
    } else if m == 5 {
        120 + leap
    } else if m == 6 {
        151 + leap
    } else if m == 7 {
        181 + leap
    } else if m == 8 {
        212 + leap
    } else if m == 9 {
        243 + leap
    } else if m == 10 {
        273 + leap
    } else if m == 11 {
        304 + leap
    } else {
        334 + leap
    }
}

/// The days from 1980-01-06 to a date.
pub open spec fn gps_day(y: int, m: int, d: int) -> int {
    365 * (y - 1980) + ((y - 1) / 4 - 494) - ((y - 1) / 100 - 19) + ((y - 1) / 400 - 4)
        + month_start(y, m) + d - 6
}

/// Whether a tick is that of a civil time: as many hundreds of nanoseconds lie between
/// 1980-01-06 and it.
pub open spec fn is_tick(t: GpsTime, c: Civil) -> bool {
    &&& c.hour < 24 && c.minute < 60 && c.second < 60 && c.nanos < 1_000_000_000
    &&& 1 <= c.month <= 12 && 1 <= c.day
    &&& c.day <= month_start(c.year as int, c.month + 1) - month_start(c.year as int, c.month as int)
        || (c.month == 12 && c.day <= 31)
    &&& t.0 * 100 == gps_day(c.year as int, c.month as int, c.day as int) * 86_400_000_000_000
        + c.hour * 3_600_000_000_000 + c.minute * 60_000_000_000 + c.second * 1_000_000_000
        + c.nanos
}

pub proof fn lemma_gps_day(y: int, m: int, d: int)
    requires
        1 <= m <= 12,
    ensures
        gps_day(y, m, d) == epoch_days(y, m, d) - 3657,
{
    reveal_with_fuel(days_before_month, 13);
    assert(month_start(y, m) == days_before_month(y, m));
    assert((y + 3) / 4 == (y - 1) / 4 + 1);
    assert((y + 99) / 100 == (y - 1) / 100 + 1);
    assert((y + 399) / 400 == (y - 1) / 400 + 1);
}

/// The civil time of a tick is the one that is written for it.
pub proof fn lemma_is_tick(t: GpsTime, c: Civil)
    requires
        is_tick(t, c),
    ensures
        c.ordinary(),
        c.gps_ns() == t.0 * 100,
        t.in_range() ==> c == civil_at(t) && c.nanos as int % 100 == 0 && 1687 <= c.year <= 2272,
{
    lemma_gps_day(c.year as int, c.month as int, c.day as int);
    assert(c.ordinary());
    lemma_civil_days(c.year as int, c.month as int, c.day as int);
    assert(c.gps_ns() == t.0 * 100);
    if t.in_range() {
        lemma_civil_at(t);
        lemma_civil_unique(c, civil_at(t));
    }
}

// ---- the line with which an epoch begins ----

/// Whether the columns of a line hold a date and a time: the year, the month, the day,
/// the hour, the minute and the second, with seven decimals.
pub open spec fn date_columns(line: Seq<u8>, c: Civil) -> bool {
    &&& four_digits(line, 2, c.year as int)
    &&& two_digits(line, 7, c.month as int)
    &&& two_digits(line, 10, c.day as int)
    &&& two_digits(line, 13, c.hour as int)
    &&& two_digits(line, 16, c.minute as int)
    &&& two_digits(line, 19, c.second as int)
    &&& line[21] == 0x2e
    &&& seven_digits(line, 22, c.nanos as int / 100)
}

/// Whether a line is that with which an epoch begins: `>`, the time in its columns, the
/// flag 0, the number of satellites, and blanks between and behind them.
#[verifier::opaque]
pub open spec fn opens_epoch(line: Seq<u8>, c: Civil, sats: int) -> bool {
    &&& line.len() == 57
    &&& line[0] == 0x3e && line[1] == 0x20
    &&& date_columns(line, c)
    &&& line[6] == 0x20 && line[9] == 0x20 && line[12] == 0x20 && line[15] == 0x20 && line[18]
        == 0x20
    &&& line[29] == 0x20 && line[30] == 0x20
    &&& line[31] == 0x30
    &&& three_places(line, 32, sats)
    &&& forall|i: int| 35 <= i < 56 ==> #[trigger] line[i] == 0x20
    &&& line[56] == 0x0a
}

proof fn lemma_first_line(c: Civil, n: nat)
    requires
        0 <= c.year <= 9999,
        c.month < 100 && c.day < 100 && c.hour < 100 && c.minute < 100 && c.second < 100,
        c.nanos < 1_000_000_000,
        n < 1000,
    ensures
        opens_epoch(epoch_first_line(c, n), c, n as int),
        epoch_first_line(c, n).len() == 57,
{
    reveal(opens_epoch);
    let y = zero_padded(c.year as nat, 4);
    let mo = zero_padded(c.month as nat, 2);
    let d = zero_padded(c.day as nat, 2);
    let h = zero_padded(c.hour as nat, 2);
    let mi = zero_padded(c.minute as nat, 2);
    let s = zero_padded(c.second as nat, 2);
    let f = zero_padded(c.nanos as nat / 100, 7);
    let k = pad_left(dec(n), 3, 0x20);
    lemma_four(c.year as nat);
    lemma_two(c.month as nat);
    lemma_two(c.day as nat);
    lemma_two(c.hour as nat);
    lemma_two(c.minute as nat);
    lemma_two(c.second as nat);
    lemma_seven(c.nanos as nat / 100);
    lemma_three(n);
    let st = stamp_text(c);
    assert(st.len() == 17);
    assert(st[0] == y[0] && st[1] == y[1] && st[2] == y[2] && st[3] == y[3] && st[4] == 0x20);
    assert(st[5] == mo[0] && st[6] == mo[1] && st[7] == 0x20);
    assert(st[8] == d[0] && st[9] == d[1] && st[10] == 0x20);
    assert(st[11] == h[0] && st[12] == h[1] && st[13] == 0x20);
    assert(st[14] == mi[0] && st[15] == mi[1] && st[16] == 0x20);
    let se = second_text(c);
    assert(se.len() == 10);
    assert(se[0] == s[0] && se[1] == s[1] && se[2] == 0x2e);
    assert(forall|i: int| 0 <= i < 7 ==> se[3 + i] == f[i]);
    let head = epoch_head(c, n);
    assert(head.len() == 35);
    assert(head[0] == 0x3e && head[1] == 0x20);
    assert(forall|i: int| 0 <= i < 17 ==> head[2 + i] == st[i]);
    assert(forall|i: int| 0 <= i < 10 ==> head[19 + i] == se[i]);
    assert(head[29] == 0x20 && head[30] == 0x20 && head[31] == 0x30);
    assert(head[32] == k[0] && head[33] == k[1] && head[34] == k[2]);
    let line = epoch_first_line(c, n);
    assert(forall|i: int| 0 <= i < 35 ==> line[i] == head[i]);
    assert(forall|i: int| 35 <= i < 56 ==> line[i] == 0x20);
    assert(line[56] == 0x0a);
    assert(se[3] == f[0] && se[4] == f[1] && se[5] == f[2] && se[6] == f[3] && se[7] == f[4] && se[8]
        == f[5] && se[9] == f[6]);
}

proof fn lemma_two_read(s: Seq<u8>, a: int, n: nat)
    requires
        0 <= a && a + 2 <= s.len(),
        two_digits(s, a, n as int),
    ensures
        trimmed(cols(s, a, a + 2)) == zero_padded(n, 2),
{
    lemma_two(n);
    lemma_dec_len(n);
    lemma_padded_number(n, 2);
    assert(cols(s, a, a + 2) =~= zero_padded(n, 2));
}

proof fn lemma_four_read(s: Seq<u8>, a: int, n: nat)
    requires
        0 <= a && a + 4 <= s.len(),
        four_digits(s, a, n as int),
    ensures
        trimmed(cols(s, a, a + 4)) == zero_padded(n, 4),
{
    lemma_four(n);
    lemma_dec_len(n);
    lemma_padded_number(n, 4);
    assert(cols(s, a, a + 4) =~= zero_padded(n, 4));
}

proof fn lemma_three_read(s: Seq<u8>, a: int, n: nat)
    requires
        0 <= a && a + 3 <= s.len(),
        three_places(s, a, n as int),
    ensures
        trimmed(cols(s, a, a + 3)) == dec(n),
        int_text(dec(n)) == Some(n as int),
        dec(n).len() > 0,
{
    lemma_three(n);
    lemma_dec_len(n);
    lemma_blank_number(n, 3);
    crate::text::lemma_dec_value(n);
    assert(cols(s, a, a + 3) =~= pad_left(dec(n), 3, 0x20));
}

proof fn lemma_flag_read(s: Seq<u8>, n: nat)
    requires
        s.len() >= 32,
        n < 10,
        s[31] == 0x30 + n,
    ensures
        trimmed(cols(s, 31, 32)) == dec(n),
        int_text(dec(n)) == Some(n as int),
        dec(n).len() > 0,
{
    lemma_dec_len(n);
    lemma_blank_number(n, 1);
    crate::text::lemma_dec_value(n);
    assert(dec(n) =~= seq![(0x30 + n) as u8]);
    assert(cols(s, 31, 32) =~= pad_left(dec(n), 1, 0x20));
}

proof fn lemma_second_read(s: Seq<u8>, c: Civil)
    requires
        s.len() >= 29,
        two_digits(s, 19, c.second as int),
        s[21] == 0x2e,
        seven_digits(s, 22, c.nanos as int / 100),
    ensures
        cols(s, 19, 29) == second_text(c),
{
    lemma_two(c.second as nat);
    lemma_seven(c.nanos as nat / 100);
    let x = zero_padded(c.second as nat, 2);
    let f = zero_padded(c.nanos as nat / 100, 7);
    assert(second_text(c) == x + seq![0x2eu8] + f);
    assert(cols(s, 19, 29) =~= x + seq![0x2eu8] + f);
}

/// A line that has a time in its columns is read as the tick of that time, whatever
/// stands between them, with the flag and the number of records.
pub proof fn lemma_epoch_line_read(
    line: &[u8],
    c: Civil,
    t: GpsTime,
    flag: int,
    records: int,
    r: Result<(i32, usize, GpsTime), String>,
)
    requires
        line@.len() >= 35,
        is_tick(t, c),
        countable(t),
        date_columns(line@, c),
        flag == 0 || flag == 1,
        line@[31] == 0x30 + flag,
        three_places(line@, 32, records),
        call_ensures(parse_epoch_line, (line,), r),
    ensures
        r matches Ok(x) && x.0 == flag && x.1 == records && x.2 == t,
{
    let s = line@;
    lemma_is_tick(t, c);
    lemma_epoch_time(t);
    lemma_four_read(s, 2, c.year as nat);
    lemma_two_read(s, 7, c.month as nat);
    lemma_two_read(s, 10, c.day as nat);
    lemma_two_read(s, 13, c.hour as nat);
    lemma_two_read(s, 16, c.minute as nat);
    lemma_second_read(s, c);
    lemma_three_read(s, 32, records as nat);
    lemma_flag_read(s, flag as nat);
}

// ---- the lines of an epoch ----

/// Where the codes of a system stand among those of all systems: G, R, E, J, C, I and S
/// in this order.
pub open spec fn list_of(lists: Seq<Seq<ObsCode>>, sys: u8) -> Seq<ObsCode> {
    let k = if sys == 0x47 {
        0int
    } else if sys == 0x52 {
        1
    } else if sys == 0x45 {
        2
    } else if sys == 0x4a {
        3
    } else if sys == 0x43 {
        4
    } else if sys == 0x49 {
        5
    } else if sys == 0x53 {
        6
    } else {
        7
    };
    if k < lists.len() {
        lists[k]
    } else {
        Seq::empty()
    }
}

/// Whether sixteen columns hold a field: its value at the right end of fourteen, then
/// the loss-of-lock indicator, and a blank. There is a blank for what there is none of.
pub open spec fn is_field_text(f: Seq<u8>, value: Seq<u8>, lli: u8) -> bool {
    &&& f.len() == 16 && value.len() <= 14
    &&& forall|i: int| 0 <= i < 14 - value.len() ==> #[trigger] f[i] == 0x20
    &&& f.subrange(14 - value.len(), 14) == value
    &&& f[14] == (if lli == 0 { 0x20int } else { 0x30 + lli })
    &&& f[15] == 0x20
}

/// The text of a value that may be absent.
pub open spec fn value_text(v: Option<&[u8]>) -> Seq<u8> {
    match v {
        Some(x) => x@,
        None => Seq::empty(),
    }
}

/// Whether field `j` is the one of a code: the first.
pub open spec fn is_field(fields: Seq<(ObsCode, ObsField<&[u8]>)>, code: ObsCode, j: int) -> bool {
    &&& 0 <= j < fields.len()
    &&& fields[j].0 == code
    &&& forall|k: int| 0 <= k < j ==> (#[trigger] fields[k]).0 != code
}

/// Whether a line is that of a satellite: its name, and under each code of its system
/// its field of that code.
#[verifier::opaque]
pub open spec fn tells_satellite(
    line: Seq<u8>,
    r: SatRecordView<&[u8]>,
    codes: Seq<ObsCode>,
) -> bool {
    &&& line.len() == 4 + 16 * codes.len()
    &&& line.take(3) == r.sat.0@
    &&& forall|i: int, j: int|
        0 <= i < codes.len() && #[trigger] is_field(r.fields, codes[i], j) ==> is_field_text(
            line.subrange(3 + 16 * i, 19 + 16 * i),
            value_text(r.fields[j].1.val),
            r.fields[j].1.lli,
        )
    &&& forall|i: int|
        0 <= i < codes.len() && lacks_field(r.fields, #[trigger] codes[i]) ==> is_field_text(
            line.subrange(3 + 16 * i, 19 + 16 * i),
            Seq::empty(),
            0,
        )
    &&& line.last() == 0x0a
}

/// Whether there is no field of a code.
pub open spec fn lacks_field(fields: Seq<(ObsCode, ObsField<&[u8]>)>, code: ObsCode) -> bool {
    forall|k: int| 0 <= k < fields.len() ==> (#[trigger] fields[k]).0 != code
}

/// How many bytes the lines of the first `k` satellites take.
pub open spec fn lines_len(
    sats: Seq<SatRecordView<&[u8]>>,
    lists: Seq<Seq<ObsCode>>,
    k: int,
) -> int
    decreases k,
{
    if k <= 0 {
        0
    } else {
        lines_len(sats, lists, k - 1) + 4 + 16 * list_of(lists, sats[k - 1].sat.0@[0]).len()
    }
}

/// How many bytes the first `k` epochs take.
pub open spec fn epochs_len(
    epochs: Seq<EpochView<&[u8]>>,
    lists: Seq<Seq<ObsCode>>,
    k: int,
) -> int
    decreases k,
{
    if k <= 0 {
        0
    } else {
        let e = epochs[k - 1];
        epochs_len(epochs, lists, k - 1) + 57 + lines_len(e.sats, lists, e.sats.len() as int)
    }
}

/// Whether a text is that of an epoch: the line with which it begins, with its time, and
/// then the lines of its satellites.
#[verifier::opaque]
pub open spec fn tells_epoch(
    text: Seq<u8>,
    e: EpochView<&[u8]>,
    lists: Seq<Seq<ObsCode>>,
) -> bool {
    &&& text.len() == 57 + lines_len(e.sats, lists, e.sats.len() as int)
    &&& forall|c: Civil| #[trigger]
        is_tick(e.t, c) ==> opens_epoch(text.take(57), c, e.sats.len() as int)
    &&& forall|k: int|
        0 <= k < e.sats.len() ==> tells_satellite(
            text.subrange(
                57 + lines_len(e.sats, lists, k),
                57 + lines_len(e.sats, lists, k + 1),
            ),
            #[trigger] e.sats[k],
            list_of(lists, e.sats[k].sat.0@[0]),
        )
}

/// Whether an epoch fits its columns: its time has a date, it has less than a thousand
/// satellites with names in ASCII, and no value takes more than fourteen columns.
pub open spec fn fits_columns(e: EpochView<&[u8]>) -> bool {
    &&& e.t.in_range()
    &&& e.sats.len() < 1000
    &&& forall|k: int| 0 <= k < e.sats.len() ==> record_fits(#[trigger] e.sats[k])
}

/// Whether the record of a satellite fits its columns.
pub open spec fn record_fits(r: SatRecordView<&[u8]>) -> bool {
    &&& r.sat.0@[0] < 128 && r.sat.0@[1] < 128 && r.sat.0@[2] < 128
    &&& forall|j: int|
        0 <= j < r.fields.len() ==> value_text((#[trigger] r.fields[j]).1.val).len() <= 14
            && r.fields[j].1.lli <= 9
}

proof fn lemma_field_text(value: Option<&[u8]>, lli: u8)
    requires
        value_text(value).len() <= 14,
        lli <= 9,
    ensures
        is_field_text(field_text(Some(ObsField { val: value, lli })), value_text(value), lli),
{
    let v = value_text(value);
    let t = field_text(Some(ObsField { val: value, lli }));
    assert(t == pad_left(v, 14, 0x20) + seq![indicator(lli), 0x20u8]);
    assert(pad_left(v, 14, 0x20).len() == 14);
    assert(t.subrange(14 - v.len(), 14) =~= v);
}

proof fn lemma_field_of(fields: Seq<(ObsCode, ObsField<&[u8]>)>, code: ObsCode)
    ensures
        forall|j: int| #[trigger]
            is_field(fields, code, j) ==> field_of(fields, code) == Some(fields[j].1),
        lacks_field(fields, code) ==> field_of(fields, code) is None,
        field_of(fields, code) is Some ==> exists|j: int| #[trigger] is_field(fields, code, j),
    decreases fields.len(),
{
    if fields.len() > 0 && fields[0].0 != code {
        let rest = fields.skip(1);
        lemma_field_of(rest, code);
        assert(field_index(fields, code) == 1 + field_index(rest, code));
        crate::rinexobs::lemma_field_index_bound(rest, code);
        assert forall|j: int| #[trigger] is_field(fields, code, j) implies field_of(fields, code)
            == Some(fields[j].1) by {
            assert(is_field(rest, code, j - 1)) by {
                assert forall|k: int| 0 <= k < j - 1 implies (#[trigger] rest[k]).0 != code by {
                    assert(rest[k] == fields[k + 1]);
                }
            }
        }
        if lacks_field(fields, code) {
            assert forall|k: int| 0 <= k < rest.len() implies (#[trigger] rest[k]).0 != code by {
                assert(rest[k] == fields[k + 1]);
            }
        }
        if field_of(fields, code) is Some {
            let j = choose|j: int| #[trigger] is_field(rest, code, j);
            assert(is_field(fields, code, j + 1)) by {
                assert forall|k: int| 0 <= k < j + 1 implies (#[trigger] fields[k]).0 != code by {
                    if k > 0 {
                        assert(rest[k - 1] == fields[k]);
                    }
                }
            }
        }
    } else if fields.len() > 0 {
        assert(is_field(fields, code, 0));
        assert forall|j: int| #[trigger] is_field(fields, code, j) implies j == 0 by {
            if j > 0 {
                assert(fields[0].0 != code);
            }
        }
    }
}

proof fn lemma_fields_text(r: SatRecordView<&[u8]>, codes: Seq<ObsCode>)
    requires
        record_fits(r),
    ensures
        fields_text(r.fields, codes).len() == 16 * codes.len(),
        forall|i: int|
            0 <= i < codes.len() ==> fields_text(r.fields, codes).subrange(16 * i, 16 * i + 16)
                == field_text(field_of(r.fields, #[trigger] codes[i])),
    decreases codes.len(),
{
    if codes.len() > 0 {
        let p = codes.drop_last();
        lemma_fields_text(r, p);
        lemma_field_len(r, codes.last());
        let t = fields_text(r.fields, codes);
        let b = fields_text(r.fields, p);
        let f = field_text(field_of(r.fields, codes.last()));
        assert(t == b + f);
        assert forall|i: int| 0 <= i < codes.len() implies t.subrange(16 * i, 16 * i + 16)
            == field_text(field_of(r.fields, #[trigger] codes[i])) by {
            if i < p.len() {
                assert(p[i] == codes[i]);
                assert(t.subrange(16 * i, 16 * i + 16) =~= b.subrange(16 * i, 16 * i + 16));
            } else {
                assert(t.subrange(16 * i, 16 * i + 16) =~= f);
            }
        }
    }
}

proof fn lemma_field_len(r: SatRecordView<&[u8]>, code: ObsCode)
    requires
        record_fits(r),
    ensures
        field_text(field_of(r.fields, code)).len() == 16,
{
    lemma_field_of(r.fields, code);
    if field_of(r.fields, code) is Some {
        let j = choose|j: int| #[trigger] is_field(r.fields, code, j);
        lemma_field_text(r.fields[j].1.val, r.fields[j].1.lli);
    }
}

proof fn lemma_sat_text(r: SatRecordView<&[u8]>, lists: Seq<Seq<ObsCode>>)
    requires
        record_fits(r),
    ensures
        tells_satellite(sat_text(r, lists), r, list_of(lists, r.sat.0@[0])),
        sat_text(r, lists).len() == 4 + 16 * list_of(lists, r.sat.0@[0]).len(),
{
    reveal(tells_satellite);
    let codes = list_of(lists, r.sat.0@[0]);
    assert(codes_for(lists, r.sat) == codes);
    let t = sat_text(r, lists);
    let id = r.sat.0@;
    crate::text::lemma_ascii_valid(id);
    assert(id_text(id) == id);
    lemma_fields_text(r, codes);
    let b = fields_text(r.fields, codes);
    assert(t == id + b + seq![0x0au8]);
    assert(t.take(3) =~= id);
    assert forall|i: int| 0 <= i < codes.len() implies t.subrange(3 + 16 * i, 19 + 16 * i)
        == field_text(field_of(r.fields, #[trigger] codes[i])) by {
        assert(b.subrange(16 * i, 16 * i + 16) == field_text(field_of(r.fields, codes[i])));
        assert(t.subrange(3 + 16 * i, 19 + 16 * i) =~= b.subrange(16 * i, 16 * i + 16));
    }
    assert forall|i: int, j: int|
        0 <= i < codes.len() && #[trigger] is_field(r.fields, codes[i], j) implies is_field_text(
        t.subrange(3 + 16 * i, 19 + 16 * i),
        value_text(r.fields[j].1.val),
        r.fields[j].1.lli,
    ) by {
        lemma_field_of(r.fields, codes[i]);
        lemma_field_text(r.fields[j].1.val, r.fields[j].1.lli);
    }
    assert forall|i: int|
        0 <= i < codes.len() && lacks_field(r.fields, #[trigger] codes[i]) implies is_field_text(
        t.subrange(3 + 16 * i, 19 + 16 * i),
        Seq::empty(),
        0,
    ) by {
        lemma_field_of(r.fields, codes[i]);
        let f = field_text(field_of(r.fields, codes[i]));
        assert(f =~= repeated(0x20, 16));
        assert(f.subrange(14, 14) =~= Seq::empty());
    }
}

proof fn lemma_lines_len(sats: Seq<SatRecordView<&[u8]>>, lists: Seq<Seq<ObsCode>>, a: int, b: int)
    requires
        0 <= a <= b,
    ensures
        0 <= lines_len(sats, lists, a) <= lines_len(sats, lists, b),
    decreases b,
{
    if a < b {
        lemma_lines_len(sats, lists, a, b - 1);
    } else if b > 0 {
        lemma_lines_len(sats, lists, a - 1, b - 1);
    }
}

/// A part of the first of two texts is that part of both.
proof fn lemma_part_of_first(a: Seq<u8>, b: Seq<u8>, p: int, q: int)
    requires
        0 <= p <= q <= a.len(),
    ensures
        (a + b).subrange(p, q) == a.subrange(p, q),
{
    assert((a + b).subrange(p, q) =~= a.subrange(p, q));
}

/// A part of the second of two texts is a part of both.
proof fn lemma_part_of_second(a: Seq<u8>, b: Seq<u8>, p: int, q: int)
    requires
        0 <= p <= q <= b.len(),
    ensures
        (a + b).subrange(a.len() + p, a.len() + q) == b.subrange(p, q),
{
    assert((a + b).subrange(a.len() + p, a.len() + q) =~= b.subrange(p, q));
}

proof fn lemma_sats_text(sats: Seq<SatRecordView<&[u8]>>, lists: Seq<Seq<ObsCode>>, n: int, k: int)
    requires
        0 <= k < n <= sats.len() || 0 == k == n,
        forall|k: int| 0 <= k < sats.len() ==> record_fits(#[trigger] sats[k]),
    ensures
        sats_text(sats.take(n), lists).len() == lines_len(sats, lists, n),
        k < n ==> tells_satellite(
            sats_text(sats.take(n), lists).subrange(
                lines_len(sats, lists, k),
                lines_len(sats, lists, k + 1),
            ),
            sats[k],
            list_of(lists, sats[k].sat.0@[0]),
        ),
    decreases n,
{
    if n == 0 {
        assert(sats.take(0) =~= Seq::empty());
    } else {
        let j = if k < n - 1 {
            k
        } else if n >= 2 {
            n - 2
        } else {
            0
        };
        lemma_sats_text(sats, lists, n - 1, j);
        assert(sats.take(n).drop_last() =~= sats.take(n - 1));
        assert(sats.take(n).last() == sats[n - 1]);
        let b = sats_text(sats.take(n - 1), lists);
        let l = sat_text(sats[n - 1], lists);
        assert(sats_text(sats.take(n), lists) == b + l);
        lemma_sat_text(sats[n - 1], lists);
        if k < n - 1 {
            lemma_lines_len(sats, lists, 0, k);
            lemma_lines_len(sats, lists, k, k + 1);
            lemma_lines_len(sats, lists, k + 1, n - 1);
            lemma_part_of_first(b, l, lines_len(sats, lists, k), lines_len(sats, lists, k + 1));
        } else {
            lemma_part_of_second(b, l, 0, l.len() as int);
            assert(l.subrange(0, l.len() as int) =~= l);
        }
    }
}

proof fn lemma_epoch_text(e: EpochView<&[u8]>, lists: Seq<Seq<ObsCode>>)
    requires
        fits_columns(e),
    ensures
        tells_epoch(epoch_text(e, lists), e, lists),
        epoch_text(e, lists).len() == 57 + lines_len(e.sats, lists, e.sats.len() as int),
{
    reveal(tells_epoch);
    let n = e.sats.len() as int;
    let c = civil_at(e.t);
    lemma_civil_at(e.t);
    lemma_civil_days(c.year as int, c.month as int, c.day as int);
    lemma_first_line(c, e.sats.len());
    let head = epoch_first_line(c, e.sats.len());
    assert(e.sats.take(n) =~= e.sats);
    let b = sats_text(e.sats, lists);
    let t = epoch_text(e, lists);
    assert(t == head + b);
    assert(t.take(57) =~= head);
    lemma_sats_text(e.sats, lists, n, 0);
    assert forall|x: Civil| #[trigger] is_tick(e.t, x) implies opens_epoch(t.take(57), x, n) by {
        lemma_is_tick(e.t, x);
    }
    assert forall|k: int| 0 <= k < e.sats.len() implies tells_satellite(
        t.subrange(57 + lines_len(e.sats, lists, k), 57 + lines_len(e.sats, lists, k + 1)),
        #[trigger] e.sats[k],
        list_of(lists, e.sats[k].sat.0@[0]),
    ) by {
        lemma_sats_text(e.sats, lists, n, k);
        lemma_lines_len(e.sats, lists, 0, k);
        lemma_lines_len(e.sats, lists, k, k + 1);
        lemma_lines_len(e.sats, lists, k + 1, n);
        lemma_part_of_second(
            head,
            b,
            lines_len(e.sats, lists, k),
            lines_len(e.sats, lists, k + 1),
        );
    }
}

proof fn lemma_epochs_len(epochs: Seq<EpochView<&[u8]>>, lists: Seq<Seq<ObsCode>>, a: int, b: int)
    requires
        0 <= a <= b,
    ensures
        0 <= epochs_len(epochs, lists, a) <= epochs_len(epochs, lists, b),
    decreases b,
{
    if b > 0 {
        let e = epochs[b - 1];
        lemma_lines_len(e.sats, lists, 0, e.sats.len() as int);
        if a < b {
            lemma_epochs_len(epochs, lists, a, b - 1);
        } else {
            lemma_epochs_len(epochs, lists, a - 1, b - 1);
        }
    }
}

proof fn lemma_epochs_text(
    epochs: Seq<EpochView<&[u8]>>,
    lists: Seq<Seq<ObsCode>>,
    n: int,
    k: int,
)
    requires
        0 <= k < n <= epochs.len() || 0 == k == n,
        forall|k: int| 0 <= k < epochs.len() ==> fits_columns(#[trigger] epochs[k]),
    ensures
        epochs_text(epochs.take(n), lists).len() == epochs_len(epochs, lists, n),
        k < n ==> tells_epoch(
            epochs_text(epochs.take(n), lists).subrange(
                epochs_len(epochs, lists, k),
                epochs_len(epochs, lists, k + 1),
            ),
            epochs[k],
            lists,
        ),
    decreases n,
{
    if n == 0 {
        assert(epochs.take(0) =~= Seq::empty());
    } else {
        let j = if k < n - 1 {
            k
        } else if n >= 2 {
            n - 2
        } else {
            0
        };
        lemma_epochs_text(epochs, lists, n - 1, j);
        assert(epochs.take(n).drop_last() =~= epochs.take(n - 1));
        assert(epochs.take(n).last() == epochs[n - 1]);
        let b = epochs_text(epochs.take(n - 1), lists);
        let l = epoch_text(epochs[n - 1], lists);
        assert(epochs_text(epochs.take(n), lists) == b + l);
        lemma_epoch_text(epochs[n - 1], lists);
        if k < n - 1 {
            lemma_epochs_len(epochs, lists, 0, k);
            lemma_epochs_len(epochs, lists, k, k + 1);
            lemma_epochs_len(epochs, lists, k + 1, n - 1);
            lemma_part_of_first(b, l, epochs_len(epochs, lists, k), epochs_len(epochs, lists, k + 1));
        } else {
            lemma_part_of_second(b, l, 0, l.len() as int);
            assert(l.subrange(0, l.len() as int) =~= l);
        }
    }
}

/// The epochs of a file are written one after another, behind what is there already,
/// each with its time in the columns of its first line: the hour in columns 13 and 14,
/// the minute in 16 and 17. The lines of its satellites follow, with a field of sixteen
/// columns under each code of the system.
pub proof fn lemma_epochs_written(f: &ObsFile<&[u8]>, k: int)
    requires
        0 <= k < f.epochs@.len(),
        forall|i: int| 0 <= i < f.epochs@.len() ==> fits_columns((#[trigger] f.epochs@[i])@),
    ensures
        forall|out: &mut Vec<u8>| #[trigger]
            call_ensures(write_epochs, (out, f), ()) ==> {
                let lists = code_lists(f.codes@);
                let epochs = epoch_views(f.epochs@);
                let start = (*out)@.len();
                &&& final(out)@.len() == start + epochs_len(epochs, lists, epochs.len() as int)
                &&& final(out)@.take(start as int) == (*out)@
                &&& tells_epoch(
                    final(out)@.subrange(
                        start + epochs_len(epochs, lists, k),
                        start + epochs_len(epochs, lists, k + 1),
                    ),
                    f.epochs@[k]@,
                    lists,
                )
            },
{
    let lists = code_lists(f.codes@);
    let epochs = epoch_views(f.epochs@);
    let n = epochs.len() as int;
    assert forall|i: int| 0 <= i < epochs.len() implies fits_columns(#[trigger] epochs[i]) by {
        assert(epochs[i] == f.epochs@[i]@);
    }
    assert(epochs.take(n) =~= epochs);
    lemma_epochs_text(epochs, lists, n, k);
    let b = epochs_text(epochs, lists);
    assert(epochs[k] == f.epochs@[k]@);
    lemma_epochs_len(epochs, lists, 0, k);
    lemma_epochs_len(epochs, lists, k, k + 1);
    lemma_epochs_len(epochs, lists, k + 1, n);
    let p = epochs_len(epochs, lists, k);
    let q = epochs_len(epochs, lists, k + 1);
    assert forall|out: &mut Vec<u8>| #[trigger] call_ensures(write_epochs, (out, f), ()) implies ({
        let start = (*out)@.len();
        &&& final(out)@.len() == start + epochs_len(epochs, lists, epochs.len() as int)
        &&& final(out)@.take(start as int) == (*out)@
        &&& tells_epoch(final(out)@.subrange(start + p, start + q), f.epochs@[k]@, lists)
    }) by {
        let start = (*out)@.len();
        assert(final(out)@ == (*out)@ + b);
        assert(final(out)@.take(start as int) =~= (*out)@);
        lemma_part_of_second((*out)@, b, p, q);
    }
}

// ---- reading the line of a satellite ----

/// Whether field `i` of a line holds a number in decimal and an indicator, where the line
/// reaches over it: the number begins and ends with a printing character.
pub open spec fn holds_number(line: Seq<u8>, i: int, value: Seq<u8>, lli: u8) -> bool {
    &&& 3 + 16 * i + 16 <= line.len()
    &&& is_field_text(line.subrange(3 + 16 * i, 19 + 16 * i), value, lli)
    &&& lli <= 9
    &&& is_float_text(value) && firm(value) && value.len() > 0
}

/// Whether field `i` of a line is blank, or lies behind its end.
pub open spec fn holds_nothing(line: Seq<u8>, i: int) -> bool {
    forall|k: int| 3 + 16 * i <= k < 19 + 16 * i && k < line.len() ==> #[trigger] line[k] == 0x20
}

/// The place of the number of field `i`: it ends where the fourteen columns do.
pub open spec fn place_of(base: int, i: int, value: Seq<u8>) -> Reading {
    Reading::Text(
        (base + 3 + 16 * i + 14 - value.len()) as usize,
        (base + 3 + 16 * i + 14) as usize,
    )
}

/// What a field with a number says of its signal, by the letter of its code: a range (C),
/// a phase with its flags (L), a Doppler shift (D) or a strength (S).
pub open spec fn says(o: ReadObservation, letter: u8, place: Reading, lli: u8) -> bool {
    &&& letter == 0x43 ==> o.v.pr == Some(place)
    &&& letter == 0x4c ==> o.v.cp == Some(place)
    &&& letter == 0x4c && lli != 0 ==> o.v.ll == (lli == 1 || lli == 3 || lli == 5 || lli == 7
        || lli == 9)
    &&& letter == 0x4c && lli != 0 ==> o.v.hc == (lli == 2 || lli == 3 || lli == 6 || lli == 7)
    &&& letter == 0x4c && lli != 0 ==> o.v.bt == (4 <= lli <= 7)
    &&& letter == 0x44 ==> o.v.dop == Some(place)
    &&& letter == 0x53 ==> o.v.cn0 == Some(place)
}

/// Whether a code is of a signal.
pub open spec fn of_signal(c: ObsCode, sig: SigId) -> bool {
    c.0@[1] == sig.0@[0] && c.0@[2] == sig.0@[1]
}

/// Whether the first `n` codes have no code of this letter and signal whose field is not
/// blank.
pub open spec fn none_of(
    line: Seq<u8>,
    codes: Seq<ObsCode>,
    n: int,
    letter: u8,
    sig: SigId,
) -> bool {
    forall|i: int|
        0 <= i < n && (#[trigger] codes[i]).0@[0] == letter && of_signal(codes[i], sig)
            ==> holds_nothing(line, i)
}

/// Whether observations are those of the first `n` fields of a line: one for each signal
/// with a field that is not blank, with the values of its fields and no others.
pub open spec fn are_in_line(
    line: Seq<u8>,
    base: int,
    codes: Seq<ObsCode>,
    n: int,
    t: GpsTime,
    frq: Option<i8>,
    os: Seq<ReadObservation>,
) -> bool {
    &&& forall|a: int|
        0 <= a < os.len() ==> {
            let o = #[trigger] os[a];
            &&& o.t == t && o.v.frq == frq && o.v.arc == 0
            &&& o.sat.0@ == line.take(3)
            &&& none_of(line, codes, n, 0x43, o.sig) ==> o.v.pr is None
            &&& none_of(line, codes, n, 0x4c, o.sig) ==> o.v.cp is None && !o.v.ll && !o.v.hc
                && !o.v.bt
            &&& none_of(line, codes, n, 0x44, o.sig) ==> o.v.dop is None
            &&& none_of(line, codes, n, 0x43, o.sig) && none_of(line, codes, n, 0x4c, o.sig)
                && none_of(line, codes, n, 0x53, o.sig) ==> o.v.cn0 is None
        }
    &&& forall|a: int, b: int|
        0 <= a < b < os.len() ==> (#[trigger] os[a]).sig != (#[trigger] os[b]).sig
    &&& forall|i: int, value: Seq<u8>, lli: u8|
        0 <= i < n && #[trigger] holds_number(line, i, value, lli) ==> said_in(
            os,
            codes[i],
            place_of(base, i, value),
            lli,
        )
}

/// Whether an observation of the signal of a code has what its field says.
pub open spec fn said_in(os: Seq<ReadObservation>, c: ObsCode, place: Reading, lli: u8) -> bool {
    exists|a: int|
        0 <= a < os.len() && of_signal(c, (#[trigger] os[a]).sig) && says(
            os[a],
            c.0@[0],
            place,
            lli,
        )
}

proof fn lemma_number_field(line: Seq<u8>, i: int, base: int, value: Seq<u8>, lli: u8)
    requires
        i >= 0,
        base >= 0,
        holds_number(line, i, value, lli),
    ensures
        number_at(line, 3 + 16 * i, base) == Some(place_of(base, i, value)),
        digit_at(line, 3 + 16 * i + 14) == (if lli == 0 { None } else { Some(lli) }),
        digit_at(line, 3 + 16 * i + 15) is None,
        trimmed(cols(line, 3 + 16 * i, 3 + 16 * i + 16)).len() > 0,
{
    let s = 3 + 16 * i;
    let f = line.subrange(s, s + 16);
    let x = cols(line, s, s + 14);
    let n = 14 - value.len();
    assert forall|k: int| 0 <= k < 16 implies line[s + k] == #[trigger] f[k] by {}
    assert(x =~= repeated(0x20, n) + value + repeated(0x20, 0)) by {
        assert forall|k: int| 0 <= k < 14 implies x[k] == (repeated(0x20, n) + value + repeated(
            0x20,
            0,
        ))[k] by {
            assert(x[k] == f[k]);
            if k >= n {
                assert(f.subrange(n, 14)[k - n] == value[k - n]);
            }
        }
    }
    lemma_trimmed(n, value, 0);
    assert(line[s + 14] == f[14] && line[s + 15] == f[15]);
    let y = cols(line, s, s + 16);
    if lli == 0 {
        assert(y =~= repeated(0x20, n) + value + repeated(0x20, 2)) by {
            assert forall|k: int| 0 <= k < 16 implies y[k] == (repeated(0x20, n) + value
                + repeated(0x20, 2))[k] by {
                assert(y[k] == f[k]);
                if n <= k < 14 {
                    assert(f.subrange(n, 14)[k - n] == value[k - n]);
                }
            }
        }
        lemma_trimmed(n, value, 2);
    } else {
        let z = value.push((0x30 + lli) as u8);
        assert(y =~= repeated(0x20, n) + z + repeated(0x20, 1)) by {
            assert forall|k: int| 0 <= k < 16 implies y[k] == (repeated(0x20, n) + z + repeated(
                0x20,
                1,
            ))[k] by {
                assert(y[k] == f[k]);
                if n <= k < 14 {
                    assert(f.subrange(n, 14)[k - n] == value[k - n]);
                }
            }
        }
        assert(z[0] == value[0]);
        lemma_trimmed(n, z, 1);
    }
}

proof fn lemma_blank_field(line: Seq<u8>, i: int)
    requires
        i >= 0,
        holds_nothing(line, i),
    ensures
        trimmed(cols(line, 3 + 16 * i, 3 + 16 * i + 16)).len() == 0,
{
    let y = cols(line, 3 + 16 * i, 3 + 16 * i + 16);
    let e = Seq::<u8>::empty();
    assert(y =~= repeated(0x20, y.len() as int) + e + repeated(0x20, 0)) by {
        assert forall|k: int| 0 <= k < y.len() implies y[k] == 0x20 by {
            assert(y[k] == line[3 + 16 * i + k]);
        }
    }
    lemma_trimmed(y.len() as int, e, 0);
}

/// One more field says what it says, and leaves the rest of its signal as it was.
proof fn lemma_with_field(
    v: SignalValues<Reading, Reading>,
    typ: u8,
    line: Seq<u8>,
    i: int,
    base: int,
)
    ensures
        ({
            let w = with_field(v, typ, line, 3 + 16 * i, base);
            &&& w.frq == v.frq && w.arc == v.arc
            &&& typ != 0x43 ==> w.pr == v.pr
            &&& typ != 0x4c ==> w.cp == v.cp && w.ll == v.ll && w.hc == v.hc && w.bt == v.bt
            &&& typ != 0x44 ==> w.dop == v.dop
            &&& typ != 0x53 && v.cn0 is Some ==> w.cn0 == v.cn0
            &&& typ != 0x53 && typ != 0x43 && typ != 0x4c ==> w.cn0 == v.cn0
        }),
{
}

proof fn lemma_in_line(
    line: Seq<u8>,
    base: int,
    codes: Seq<ObsCode>,
    n: int,
    t: GpsTime,
    sat: SatId,
    frq: Option<i8>,
)
    requires
        0 <= n <= codes.len(),
        base >= 0,
        sat.0@ == line.take(3),
        forall|a: int, b: int| 0 <= a < b < codes.len() ==> codes[a] != codes[b],
    ensures
        are_in_line(
            line,
            base,
            codes,
            n,
            t,
            frq,
            line_observations(line, base, codes, n, t, sat, frq),
        ),
    decreases n,
{
    if n > 0 {
        lemma_in_line(line, base, codes, n - 1, t, sat, frq);
        let before = line_observations(line, base, codes, n - 1, t, sat, frq);
        let os = line_observations(line, base, codes, n, t, sat, frq);
        let i = n - 1;
        let start = 3 + 16 * i;
        let code = codes[i];
        let sig = code_signal(code);
        assert(sig.0@[0] == code.0@[1] && sig.0@[1] == code.0@[2]);
        if trimmed(cols(line, start, start + 16)).len() == 0 {
            lemma_blank_step(line, base, codes, n, t, frq, before);
        } else {
            lemma_find_signal(before, sig);
            let k = signal_index(before, sig);
            let o = if k < before.len() {
                before[k]
            } else {
                new_observation(t, sat, sig, frq)
            };
            lemma_field_step(line, base, codes, n, t, frq, before, os, k, o);
        }
    }
}

proof fn lemma_find_signal(os: Seq<ReadObservation>, sig: SigId)
    ensures
        0 <= signal_index(os, sig) <= os.len(),
        signal_index(os, sig) < os.len() ==> os[signal_index(os, sig)].sig == sig,
        forall|j: int| 0 <= j < signal_index(os, sig) ==> (#[trigger] os[j]).sig != sig,
    decreases os.len(),
{
    if os.len() > 0 && os[0].sig != sig {
        let rest = os.skip(1);
        lemma_find_signal(rest, sig);
        assert forall|j: int| 0 <= j < signal_index(os, sig) implies (#[trigger] os[j]).sig
            != sig by {
            if j > 0 {
                assert(rest[j - 1] == os[j]);
            }
        }
    }
}

/// None of the first codes is none of fewer.
proof fn lemma_none_of(line: Seq<u8>, codes: Seq<ObsCode>, n: int, letter: u8, sig: SigId)
    ensures
        none_of(line, codes, n, letter, sig) ==> none_of(line, codes, n - 1, letter, sig),
{
}

proof fn lemma_blank_step(
    line: Seq<u8>,
    base: int,
    codes: Seq<ObsCode>,
    n: int,
    t: GpsTime,
    frq: Option<i8>,
    os: Seq<ReadObservation>,
)
    requires
        0 < n <= codes.len(),
        base >= 0,
        are_in_line(line, base, codes, n - 1, t, frq, os),
        trimmed(cols(line, 3 + 16 * (n - 1), 3 + 16 * (n - 1) + 16)).len() == 0,
    ensures
        are_in_line(line, base, codes, n, t, frq, os),
{
    assert forall|a: int| 0 <= a < os.len() implies ({
        let o = #[trigger] os[a];
        &&& o.t == t && o.v.frq == frq && o.v.arc == 0
        &&& o.sat.0@ == line.take(3)
        &&& none_of(line, codes, n, 0x43, o.sig) ==> o.v.pr is None
        &&& none_of(line, codes, n, 0x4c, o.sig) ==> o.v.cp is None && !o.v.ll && !o.v.hc
            && !o.v.bt
        &&& none_of(line, codes, n, 0x44, o.sig) ==> o.v.dop is None
        &&& none_of(line, codes, n, 0x43, o.sig) && none_of(line, codes, n, 0x4c, o.sig)
            && none_of(line, codes, n, 0x53, o.sig) ==> o.v.cn0 is None
    }) by {
        lemma_none_of(line, codes, n, 0x43, os[a].sig);
        lemma_none_of(line, codes, n, 0x4c, os[a].sig);
        lemma_none_of(line, codes, n, 0x44, os[a].sig);
        lemma_none_of(line, codes, n, 0x53, os[a].sig);
    }
    assert forall|i: int, value: Seq<u8>, lli: u8|
        0 <= i < n && #[trigger] holds_number(line, i, value, lli) implies said_in(
        os,
        codes[i],
        place_of(base, i, value),
        lli,
    ) by {
        if i == n - 1 {
            lemma_number_field(line, i, base, value, lli);
        }
    }
}

proof fn lemma_field_step(
    line: Seq<u8>,
    base: int,
    codes: Seq<ObsCode>,
    n: int,
    t: GpsTime,
    frq: Option<i8>,
    before: Seq<ReadObservation>,
    os: Seq<ReadObservation>,
    k: int,
    o: ReadObservation,
)
    requires
        0 < n <= codes.len(),
        base >= 0,
        forall|a: int, b: int| 0 <= a < b < codes.len() ==> codes[a] != codes[b],
        are_in_line(line, base, codes, n - 1, t, frq, before),
        trimmed(cols(line, 3 + 16 * (n - 1), 3 + 16 * (n - 1) + 16)).len() > 0,
        0 <= k <= before.len(),
        of_signal(codes[n - 1], o.sig),
        forall|j: int| 0 <= j < k ==> (#[trigger] before[j]).sig != o.sig,
        k < before.len() ==> o == before[k],
        k == before.len() ==> o.t == t && o.v == (SignalValues {
            frq,
            ..crate::obs::no_values::<Reading, Reading>()
        }) && o.sat.0@ == line.take(3),
        os == (if k < before.len() {
            before.update(
                k,
                SignalObservation {
                    v: with_field(o.v, codes[n - 1].0@[0], line, 3 + 16 * (n - 1), base),
                    ..o
                },
            )
        } else {
            before.push(
                SignalObservation {
                    v: with_field(o.v, codes[n - 1].0@[0], line, 3 + 16 * (n - 1), base),
                    ..o
                },
            )
        }),
    ensures
        are_in_line(line, base, codes, n, t, frq, os),
{
    let i = n - 1;
    let c = codes[i];
    let typ = c.0@[0];
    let w = with_field(o.v, typ, line, 3 + 16 * i, base);
    lemma_with_field(o.v, typ, line, i, base);
    assert(os[k].v == w && os[k].sig == o.sig && os[k].t == o.t && os[k].sat == o.sat);
    assert forall|a: int| 0 <= a < os.len() && a != k implies os[a] == before[a] by {}
    let blank = holds_nothing(line, i);
    if blank {
        lemma_blank_field(line, i);
    }
    assert forall|letter: u8| #[trigger] none_of(line, codes, n, letter, o.sig) implies letter
        != typ && none_of(line, codes, n - 1, letter, o.sig) by {
        if letter == typ {
            assert(codes[i].0@[0] == letter && of_signal(codes[i], o.sig));
        }
    }
    assert forall|a: int| 0 <= a < os.len() implies ({
        let o = #[trigger] os[a];
        &&& o.t == t && o.v.frq == frq && o.v.arc == 0
        &&& o.sat.0@ == line.take(3)
        &&& none_of(line, codes, n, 0x43, o.sig) ==> o.v.pr is None
        &&& none_of(line, codes, n, 0x4c, o.sig) ==> o.v.cp is None && !o.v.ll && !o.v.hc
            && !o.v.bt
        &&& none_of(line, codes, n, 0x44, o.sig) ==> o.v.dop is None
        &&& none_of(line, codes, n, 0x43, o.sig) && none_of(line, codes, n, 0x4c, o.sig)
            && none_of(line, codes, n, 0x53, o.sig) ==> o.v.cn0 is None
    }) by {
        let s = os[a].sig;
        lemma_none_of(line, codes, n, 0x43, s);
        lemma_none_of(line, codes, n, 0x4c, s);
        lemma_none_of(line, codes, n, 0x44, s);
        lemma_none_of(line, codes, n, 0x53, s);
    }
    assert forall|a: int, b: int| 0 <= a < b < os.len() implies (#[trigger] os[a]).sig != (
    #[trigger] os[b]).sig by {
        if a != k && b != k {
            assert(before[a].sig != before[b].sig);
        } else if k < before.len() {
            assert(before[a].sig != before[b].sig);
        } else {
            assert(before[a].sig != o.sig);
        }
    }
    assert forall|j: int, value: Seq<u8>, lli: u8|
        0 <= j < n && #[trigger] holds_number(line, j, value, lli) implies said_in(
        os,
        codes[j],
        place_of(base, j, value),
        lli,
    ) by {
        let place = place_of(base, j, value);
        if j == i {
            lemma_number_field(line, i, base, value, lli);
            assert(says(os[k], typ, place, lli));
            assert(of_signal(c, os[k].sig));
        } else {
            assert(said_in(before, codes[j], place, lli));
            let a = choose|a: int|
                0 <= a < before.len() && of_signal(codes[j], (#[trigger] before[a]).sig) && says(
                    before[a],
                    codes[j].0@[0],
                    place,
                    lli,
                );
            if a == k {
                assert(codes[j] != codes[i]);
                assert(codes[j].0@[0] != typ) by {
                    if codes[j].0@[0] == typ {
                        assert(codes[j].0 =~= codes[i].0);
                    }
                }
                assert(says(os[a], codes[j].0@[0], place, lli));
            } else {
                assert(os[a] == before[a]);
            }
        }
    }
}

/// The line of a satellite is read field by field: what stands under a code goes to the
/// value that the letter of the code names, of the signal that the code names. A signal
/// all of whose fields are blank is not observed.
pub proof fn lemma_satellite_line_read(
    t: GpsTime,
    line: &[u8],
    base: usize,
    h: &ObsHeader,
    r: Result<(), String>,
)
    requires
        h.wf(),
        line@.len() >= 3,
        sat_valid(line@.take(3)),
        ({
            let codes = list_of(code_lists(h.codes@), line@[0]);
            forall|a: int, b: int| 0 <= a < b < codes.len() ==> codes[a] != codes[b]
        }),
    ensures
        forall|out: &mut Vec<ReadObservation>| #[trigger]
            call_ensures(parse_satellite_observation_line, (t, line, base, h, out), r) ==> r is Ok
                && line_read(t, line@, base as int, h, (*out)@, final(out)@),
{
    let s = line@;
    let id = first_three(s);
    assert(id =~= s.take(3));
    let sat = SatId([id[0], id[1], id[2]]);
    assert(sat.0@ =~= s.take(3));
    let codes = list_of(code_lists(h.codes@), s[0]);
    assert(codes_for(h@.codes, sat) == codes);
    let frq = fx_value(h.frq@, sat_number(sat));
    lemma_in_line(s, base as int, codes, codes.len() as int, t, sat, frq);
    let os = line_observations(s, base as int, codes, codes.len() as int, t, sat, frq);
    assert forall|out: &mut Vec<ReadObservation>| #[trigger]
        call_ensures(parse_satellite_observation_line, (t, line, base, h, out), r) implies r is Ok
        && line_read(t, s, base as int, h, (*out)@, final(out)@) by {
        assert(final(out)@ == (*out)@ + os);
        assert(are_in_line(s, base as int, codes, codes.len() as int, t, frq, os));
        assert((*out)@ + os == final(out)@);
    }
}

/// Whether the observations of a line were added to others.
pub open spec fn line_read(
    t: GpsTime,
    line: Seq<u8>,
    base: int,
    h: &ObsHeader,
    before: Seq<ReadObservation>,
    after: Seq<ReadObservation>,
) -> bool {
    let codes = list_of(code_lists(h.codes@), line[0]);
    exists|os: Seq<ReadObservation>, frq: Option<i8>|
        after == #[trigger] (before + os) && #[trigger] are_in_line(
            line,
            base,
            codes,
            codes.len() as int,
            t,
            frq,
            os,
        )
}

} // verus!
