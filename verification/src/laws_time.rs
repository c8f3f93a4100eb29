//! Times and their texts: which tick a civil time is, and where its digits stand.

use crate::calendar::lemma_civil_days;
use crate::json::{
    lemma_zoneless_round_trip, parse_rfc3339_public, split_zone, zoneless_date_time,
};
use crate::laws_rinex::{
    four_digits, gps_day, is_tick, lemma_four, lemma_gps_day, lemma_is_tick, lemma_seven, lemma_two,
    month_start, seven_digits, two_digits,
};
use crate::obs::{
    civil_label, lemma_civil_unique, lemma_label_round_trip, lemma_tick_civil, parse_time, Civil,
    GpsTime, Instant,
};
use crate::rinex_read::parse_run_date;
use crate::rinex_write::{
    civil_of, format_run_date, lemma_instant_civil, run_date_text,
};
use crate::reread::lemma_padded_number;
use crate::text::{fields, lemma_dec_len, utf8, zero_padded};
use vstd::prelude::*;

verus! {

/// Whether the fields of a civil time name a day of the calendar and a time of that day.
pub open spec fn on_calendar(c: Civil) -> bool {
    &&& c.hour < 24 && c.minute < 60 && c.second < 60
    &&& 1 <= c.month <= 12 && 1 <= c.day
    &&& c.day <= month_start(c.year as int, c.month + 1) - month_start(c.year as int, c.month as int)
        || (c.month == 12 && c.day <= 31)
}

/// The civil time that a tick is turned into is the one whose tick it is.
pub proof fn lemma_civil_of_tick(t: GpsTime, r: Civil)
    requires
        call_ensures(GpsTime::civil, (t,), r),
    ensures
        is_tick(t, r),
{
    lemma_gps_day(r.year as int, r.month as int, r.day as int);
    lemma_civil_days(r.year as int, r.month as int, r.day as int);
}

/// A civil time is turned into its tick.
pub proof fn lemma_tick_of_civil(c: Civil, t: GpsTime, r: GpsTime)
    requires
        is_tick(t, c),
        call_ensures(GpsTime::from_civil, (c,), r),
    ensures
        r == t,
{
    lemma_is_tick(t, c);
}

/// Whether the digits of a time stand in a text, from the year to the second: `-` between
/// the parts of the date, `T` before the time of day and `:` between its parts.
pub open spec fn shows_time(s: Seq<u8>, c: Civil) -> bool {
    &&& s.len() >= 19
    &&& four_digits(s, 0, c.year as int)
    &&& s[4] == 0x2d
    &&& two_digits(s, 5, c.month as int)
    &&& s[7] == 0x2d
    &&& two_digits(s, 8, c.day as int)
    &&& s[10] == 0x54
    &&& two_digits(s, 11, c.hour as int)
    &&& s[13] == 0x3a
    &&& two_digits(s, 14, c.minute as int)
    &&& s[16] == 0x3a
    &&& two_digits(s, 17, c.second as int)
}

/// Whether a text is the label of a time: its digits, a point and seven decimals.
pub open spec fn is_label(s: Seq<u8>, c: Civil) -> bool {
    &&& s.len() == 27
    &&& shows_time(s, c)
    &&& s[19] == 0x2e
    &&& seven_digits(s, 20, c.nanos as int / 100)
}

pub proof fn lemma_label(c: Civil)
    requires
        0 <= c.year <= 9999,
        c.month < 100 && c.day < 100 && c.hour < 100 && c.minute < 100 && c.second < 100,
        c.nanos < 1_000_000_000,
    ensures
        is_label(civil_label(c), c),
{
    lemma_four(c.year as nat);
    lemma_two(c.month as nat);
    lemma_two(c.day as nat);
    lemma_two(c.hour as nat);
    lemma_two(c.minute as nat);
    lemma_two(c.second as nat);
    lemma_seven(c.nanos as nat / 100);
    let y = zero_padded(c.year as nat, 4);
    let mo = zero_padded(c.month as nat, 2);
    let d = zero_padded(c.day as nat, 2);
    let h = zero_padded(c.hour as nat, 2);
    let mi = zero_padded(c.minute as nat, 2);
    let se = zero_padded(c.second as nat, 2);
    let f = zero_padded(c.nanos as nat / 100, 7);
    let s = civil_label(c);
    assert(s.len() == 27);
    assert(s[0] == y[0] && s[1] == y[1] && s[2] == y[2] && s[3] == y[3]);
    assert(s[5] == mo[0] && s[6] == mo[1] && s[8] == d[0] && s[9] == d[1]);
    assert(s[11] == h[0] && s[12] == h[1] && s[14] == mi[0] && s[15] == mi[1]);
    assert(s[17] == se[0] && s[18] == se[1]);
    assert(s[20] == f[0] && s[21] == f[1] && s[22] == f[2] && s[23] == f[3] && s[24] == f[4] && s[25]
        == f[5] && s[26] == f[6]);
}

/// Digits in their places are those of a number alone.
proof fn lemma_same_digits(a: Seq<u8>, b: Seq<u8>, c: Civil)
    requires
        is_label(a, c),
        is_label(b, c),
    ensures
        a == b,
{
    assert forall|i: int| 0 <= i < 27 implies a[i] == b[i] by {
        if i < 4 {
            assert(a[0] == b[0] && a[1] == b[1] && a[2] == b[2] && a[3] == b[3]);
        } else if i < 20 {
            assert(a[5] == b[5] && a[6] == b[6] && a[8] == b[8] && a[9] == b[9]);
            assert(a[11] == b[11] && a[12] == b[12] && a[14] == b[14] && a[15] == b[15]);
            assert(a[17] == b[17] && a[18] == b[18]);
        } else {
            assert(a[20] == b[20] && a[21] == b[21] && a[22] == b[22] && a[23] == b[23] && a[24]
                == b[24] && a[25] == b[25] && a[26] == b[26]);
        }
    }
    assert(a =~= b);
}

/// The label of a tick shows the civil time of which it is the tick.
pub proof fn lemma_label_written(t: &GpsTime, c: Civil, r: String)
    requires
        t.in_range(),
        is_tick(*t, c),
        call_ensures(GpsTime::to_string, (t,), r),
    ensures
        is_label(utf8(r@), c),
{
    lemma_is_tick(*t, c);
    let x = choose|x: Civil|
        x.ordinary() && x.gps_ns() == t.0 * 100 && utf8(r@) == civil_label(x);
    lemma_civil_unique(c, x);
    lemma_civil_days(c.year as int, c.month as int, c.day as int);
    lemma_label(c);
}

/// A label is read as the tick of the time that it shows.
pub proof fn lemma_label_read(s: &str, c: Civil, t: GpsTime, r: Result<GpsTime, String>)
    requires
        t.in_range(),
        is_tick(t, c),
        c.gps_fits(),
        is_label(utf8(s@), c),
        call_ensures(parse_time, (s,), r),
    ensures
        r == Ok::<GpsTime, String>(t),
{
    lemma_is_tick(t, c);
    lemma_tick_civil(t, c);
    lemma_label_round_trip(t, c);
    lemma_civil_days(c.year as int, c.month as int, c.day as int);
    lemma_label(c);
    lemma_same_digits(utf8(s@), civil_label(c), c);
}

// ---- instants ----

/// Whether an instant is that of a civil time: as many seconds lie between 1970-01-01, which
/// is 315 964 800 seconds before 1980-01-06, and it.
pub open spec fn is_instant(d: Instant, c: Civil) -> bool {
    &&& on_calendar(c)
    &&& d.secs == gps_day(c.year as int, c.month as int, c.day as int) * 86_400 + c.hour * 3600
        + c.minute * 60 + c.second + 315_964_800
    &&& d.nanos == c.nanos
}

pub proof fn lemma_is_instant(d: Instant, c: Civil)
    requires
        is_instant(d, c),
    ensures
        c.on_clock(),
        c.unix() == d.secs,
        c == civil_of(d),
{
    lemma_gps_day(c.year as int, c.month as int, c.day as int);
    assert(c.on_clock());
    lemma_civil_days(c.year as int, c.month as int, c.day as int);
    assert(c.unix() == d.secs);
    lemma_instant_civil(c, civil_of(d));
}

/// The civil time that an instant is turned into is the one whose instant it is, and back.
pub proof fn lemma_civil_of_instant(d: Instant, r: Civil)
    requires
        call_ensures(Instant::civil, (d,), r),
    ensures
        is_instant(d, r),
{
    lemma_gps_day(r.year as int, r.month as int, r.day as int);
    lemma_civil_days(r.year as int, r.month as int, r.day as int);
}

/// A civil time is turned into its instant.
pub proof fn lemma_instant_of_civil(c: Civil, d: Instant, r: Instant)
    requires
        is_instant(d, c),
        call_ensures(Instant::from_civil, (c,), r),
    ensures
        r == d,
{
    lemma_is_instant(d, c);
}

/// The date of a run is written as `YYYYMMDD HHMMSS UTC`.
pub proof fn lemma_run_date_written(d: Instant, c: Civil, r: Vec<u8>)
    requires
        is_instant(d, c),
        0 <= c.year <= 9999,
        call_ensures(format_run_date, (d,), r),
    ensures
        r@.len() == 19,
        four_digits(r@, 0, c.year as int),
        two_digits(r@, 4, c.month as int),
        two_digits(r@, 6, c.day as int),
        r@[8] == 0x20,
        two_digits(r@, 9, c.hour as int),
        two_digits(r@, 11, c.minute as int),
        two_digits(r@, 13, c.second as int),
        r@[15] == 0x20 && r@[16] == 0x55 && r@[17] == 0x54 && r@[18] == 0x43,
{
    lemma_is_instant(d, c);
    lemma_civil_days(c.year as int, c.month as int, c.day as int);
    lemma_four(c.year as nat);
    lemma_two(c.month as nat);
    lemma_two(c.day as nat);
    lemma_two(c.hour as nat);
    lemma_two(c.minute as nat);
    lemma_two(c.second as nat);
    reveal_strlit(" UTC");
    crate::labels::lemma_ascii_text(" UTC"@);
    let z = utf8(" UTC"@);
    assert(z.len() == 4 && z[0] == 0x20 && z[1] == 0x55 && z[2] == 0x54 && z[3] == 0x43);
    let y = zero_padded(c.year as nat, 4);
    let mo = zero_padded(c.month as nat, 2);
    let da = zero_padded(c.day as nat, 2);
    let h = zero_padded(c.hour as nat, 2);
    let mi = zero_padded(c.minute as nat, 2);
    let se = zero_padded(c.second as nat, 2);
    let s = run_date_text(c);
    assert(s.len() == 19);
    assert(s[0] == y[0] && s[1] == y[1] && s[2] == y[2] && s[3] == y[3]);
    assert(s[4] == mo[0] && s[5] == mo[1] && s[6] == da[0] && s[7] == da[1]);
    assert(s[9] == h[0] && s[10] == h[1] && s[11] == mi[0] && s[12] == mi[1] && s[13] == se[0]
        && s[14] == se[1]);
    assert(s[15] == z[0] && s[16] == z[1] && s[17] == z[2] && s[18] == z[3]);
}

proof fn lemma_two_number(f: Seq<u8>, a: int, n: nat)
    requires
        0 <= a && a + 2 <= f.len(),
        two_digits(f, a, n as int),
    ensures
        crate::text::uint_text(f.subrange(a, a + 2)) == Some(n as int),
{
    lemma_two(n);
    lemma_dec_len(n);
    lemma_padded_number(n, 2);
    assert(f.subrange(a, a + 2) =~= zero_padded(n, 2));
}

proof fn lemma_four_number(f: Seq<u8>, n: nat)
    requires
        4 <= f.len(),
        four_digits(f, 0, n as int),
    ensures
        crate::text::int_text(f.subrange(0, 4)) == Some(n as int),
{
    lemma_four(n);
    lemma_dec_len(n);
    lemma_padded_number(n, 4);
    assert(f.subrange(0, 4) =~= zero_padded(n, 4));
}

/// The date of a run is read from its first two fields: eight digits of a date and six of a
/// time of day.
pub proof fn lemma_run_date_read(s: &[u8], c: Civil, d: Instant, r: Option<Instant>)
    requires
        is_instant(d, c),
        c.nanos == 0,
        ({
            let f = fields(s@);
            &&& f.len() >= 2 && f[0].len() == 8 && f[1].len() == 6
            &&& four_digits(f[0], 0, c.year as int)
            &&& two_digits(f[0], 4, c.month as int)
            &&& two_digits(f[0], 6, c.day as int)
            &&& two_digits(f[1], 0, c.hour as int)
            &&& two_digits(f[1], 2, c.minute as int)
            &&& two_digits(f[1], 4, c.second as int)
        }),
        call_ensures(parse_run_date, (s,), r),
    ensures
        r == Some(d),
{
    let f = fields(s@);
    lemma_is_instant(d, c);
    lemma_four_number(f[0], c.year as nat);
    lemma_two_number(f[0], 4, c.month as nat);
    lemma_two_number(f[0], 6, c.day as nat);
    lemma_two_number(f[1], 0, c.hour as nat);
    lemma_two_number(f[1], 2, c.minute as nat);
    lemma_two_number(f[1], 4, c.second as nat);
}

/// An instant is written as the digits of its civil time, and such a text is read as the
/// instant.
pub proof fn lemma_zoneless_written(d: Instant, c: Civil, r: String)
    requires
        is_instant(d, c),
        0 <= c.year <= 9999,
        c.nanos < 1_000_000_000,
        call_ensures(zoneless_date_time, (d,), r),
    ensures
        shows_time(utf8(r@), c),
        c.nanos == 0 ==> utf8(r@).len() == 19,
{
    lemma_is_instant(d, c);
    lemma_civil_days(c.year as int, c.month as int, c.day as int);
    lemma_four(c.year as nat);
    lemma_two(c.month as nat);
    lemma_two(c.day as nat);
    lemma_two(c.hour as nat);
    lemma_two(c.minute as nat);
    lemma_two(c.second as nat);
    let y = zero_padded(c.year as nat, 4);
    let mo = zero_padded(c.month as nat, 2);
    let da = zero_padded(c.day as nat, 2);
    let h = zero_padded(c.hour as nat, 2);
    let mi = zero_padded(c.minute as nat, 2);
    let se = zero_padded(c.second as nat, 2);
    let s = utf8(r@);
    assert(s[0] == y[0] && s[1] == y[1] && s[2] == y[2] && s[3] == y[3]);
    assert(s[5] == mo[0] && s[6] == mo[1] && s[8] == da[0] && s[9] == da[1]);
    assert(s[11] == h[0] && s[12] == h[1] && s[14] == mi[0] && s[15] == mi[1]);
    assert(s[17] == se[0] && s[18] == se[1]);
}

/// The first 19 bytes of a text that shows a time are its digits and separators.
proof fn lemma_same_time(a: Seq<u8>, b: Seq<u8>, c: Civil)
    requires
        a.len() == 19 && b.len() == 19,
        shows_time(a, c),
        shows_time(b, c),
    ensures
        a == b,
{
    assert forall|i: int| 0 <= i < 19 implies a[i] == b[i] by {
        assert(a[0] == b[0] && a[1] == b[1] && a[2] == b[2] && a[3] == b[3]);
        assert(a[5] == b[5] && a[6] == b[6] && a[8] == b[8] && a[9] == b[9]);
        assert(a[11] == b[11] && a[12] == b[12] && a[14] == b[14] && a[15] == b[15]);
        assert(a[17] == b[17] && a[18] == b[18]);
    }
    assert(a =~= b);
}

proof fn lemma_zoneless_digits(c: Civil)
    requires
        0 <= c.year <= 9999,
        c.month < 100 && c.day < 100 && c.hour < 100 && c.minute < 100 && c.second < 100,
        c.nanos == 0,
    ensures
        crate::json::zoneless_text(c).len() == 19,
        shows_time(crate::json::zoneless_text(c), c),
{
    lemma_four(c.year as nat);
    lemma_two(c.month as nat);
    lemma_two(c.day as nat);
    lemma_two(c.hour as nat);
    lemma_two(c.minute as nat);
    lemma_two(c.second as nat);
    let y = zero_padded(c.year as nat, 4);
    let mo = zero_padded(c.month as nat, 2);
    let da = zero_padded(c.day as nat, 2);
    let h = zero_padded(c.hour as nat, 2);
    let mi = zero_padded(c.minute as nat, 2);
    let se = zero_padded(c.second as nat, 2);
    let s = crate::json::zoneless_text(c);
    assert(s[0] == y[0] && s[1] == y[1] && s[2] == y[2] && s[3] == y[3]);
    assert(s[5] == mo[0] && s[6] == mo[1] && s[8] == da[0] && s[9] == da[1]);
    assert(s[11] == h[0] && s[12] == h[1] && s[14] == mi[0] && s[15] == mi[1]);
    assert(s[17] == se[0] && s[18] == se[1]);
}

/// A time without a zone is read as the instant of the civil time that it shows.
pub proof fn lemma_zoneless_read(s: &str, c: Civil, d: Instant, r: Option<Instant>)
    requires
        is_instant(d, c),
        c.nanos == 0,
        c.unix_fits(),
        utf8(s@).len() == 19,
        shows_time(utf8(s@), c),
        call_ensures(parse_rfc3339_public, (s,), r),
    ensures
        r == Some(d),
{
    lemma_is_instant(d, c);
    lemma_zoneless_digits(c);
    lemma_same_time(utf8(s@), crate::json::zoneless_text(c), c);
    lemma_zoneless_round_trip(d, c);
}

/// A zone is read as its offset in seconds, which is positive east of Greenwich; `Z` is none.
pub proof fn lemma_zone_read(s: &[u8], time: Seq<u8>, sign: u8, h: nat, m: nat, r: Option<(&[u8], i64)>)
    requires
        sign == 0x2b || sign == 0x2d,
        h <= 23 && m <= 59,
        s@.len() == time.len() + 6,
        s@.take(time.len() as int) == time,
        s@[time.len() as int] == sign,
        two_digits(s@, time.len() as int + 1, h as int),
        s@[time.len() as int + 3] == 0x3a,
        two_digits(s@, time.len() as int + 4, m as int),
        call_ensures(split_zone, (s,), r),
    ensures
        r matches Some(x) && x.0@ == time && x.1 == (if sign == 0x2b {
            (h * 3600 + m * 60) as int
        } else {
            -(h * 3600 + m * 60)
        }),
{
    let n = time.len() as int;
    let b = s@;
    lemma_last_sign(b, n);
    let zone = b.skip(n + 1);
    assert(zone.len() == 5);
    assert(zone[0] == b[n + 1] && zone[1] == b[n + 2] && zone[2] == b[n + 3] && zone[3] == b[n + 4]
        && zone[4] == b[n + 5]);
    crate::text::lemma_first_index_is(zone, 0x3a, 2);
    lemma_two_number(b, n + 1, h);
    lemma_two_number(b, n + 4, m);
    assert(zone.take(2) =~= b.subrange(n + 1, n + 3));
    assert(zone.skip(3) =~= b.subrange(n + 4, n + 6));
    lemma_two(h);
    lemma_two(m);
    lemma_dec_len(h);
    lemma_dec_len(m);
    lemma_padded_number(h, 2);
    lemma_padded_number(m, 2);
    assert(zone.take(2) =~= zero_padded(h, 2));
    assert(zone.skip(3) =~= zero_padded(m, 2));
    assert(b.last() == b[n + 5]);
}

proof fn lemma_last_sign(s: Seq<u8>, i: int)
    requires
        0 <= i < s.len(),
        s[i] == 0x2b || s[i] == 0x2d,
        forall|j: int| i < j < s.len() ==> #[trigger] s[j] != 0x2b && s[j] != 0x2d,
    ensures
        crate::json::last_sign(s) == i,
    decreases s.len(),
{
    if i < s.len() - 1 {
        lemma_last_sign(s.drop_last(), i);
        assert(s.last() == s[s.len() - 1]);
    }
}

} // verus!
