//! The observation model that every converter and writer speaks.
//!
//! [`GpsTime`] counts 100 ns ticks from the GPS epoch 1980-01-06, with no
//! leap-second adjustment, so a civil time label maps to the tick with the same
//! label. Observations carry `arc`, a carrier-phase arc counter that never
//! decreases, from which a RINEX loss-of-lock indicator is derived where a file
//! is written.
//!
//! The measured quantities are generic: `F` stands for ranges, phases, Doppler
//! shifts and coordinates (a double), `G` for signal strengths (a single). The
//! model never computes with them.

use crate::calendar::{
    civil_days, civil_from_days, days_from_civil, div_mod, epoch_days, floor_div, is_date,
    lemma_civil_days, lemma_date_unique, lemma_epoch_days_ordered,
};
use crate::text::{
    all_digits, ascii_text, find_byte, first_index, int_text, is_digit, is_digits, lemma_dec_len,
    lemma_first_index_is, lemma_zero_padded, parse_i64, parse_u32, push_dec_padded, quoted_text,
    uint_text, utf8, utf8_or_empty, with_quoted, within, zero_padded,
};
use vstd::prelude::*;
use vstd::slice::slice_subrange;
use vstd::utf8::valid_utf8;

verus! {

pub const TICK_NS: i64 = 100;

pub const MS_PER_WEEK: i64 = 604_800_000;

pub const DEFAULT_GPS_UTC_SECONDS: i16 = 18;

pub const BDT_GPS_OFFSET_SECONDS: i64 = 14;

/// Unix seconds at the GPS epoch 1980-01-06T00:00:00Z.
pub const EPOCH_UNIX: i64 = 315_964_800;

pub const LLI_LOST_LOCK: u8 = 1;

pub const LLI_HALF_CYCLE: u8 = 2;

pub const LLI_BOC: u8 = 4;

/// GPS time as 100 ns ticks from the GPS epoch.
#[derive(Clone, Copy, Debug, PartialEq, Eq, PartialOrd, Ord, Hash, Structural)]
pub struct GpsTime(pub i64);

impl Default for GpsTime {
    fn default() -> (r: GpsTime)
        ensures
            r == GpsTime(0),
    {
        GpsTime(0)
    }
}

/// A civil (UTC-labelled) broken-down time.
#[derive(Clone, Copy, Debug, PartialEq, Eq, Structural)]
pub struct Civil {
    pub year: i64,
    pub month: u32,
    pub day: u32,
    pub hour: u32,
    pub minute: u32,
    pub second: u32,
    pub nanos: u32,
}

impl Civil {
    /// Whole days from 1970-01-01.
    pub open spec fn days(self) -> int {
        civil_days(self.year as int, self.month as int, self.day as int)
    }

    /// Whole seconds from 1970-01-01T00:00:00.
    pub open spec fn unix(self) -> int {
        self.days() * 86400 + self.hour * 3600 + self.minute * 60 + self.second
    }

    /// Nanoseconds from the GPS epoch.
    pub open spec fn gps_ns(self) -> int {
        (self.unix() - EPOCH_UNIX) * 1_000_000_000 + self.nanos
    }

    /// Whether the day and the second can be counted in 64 bits.
    pub open spec fn unix_fits(self) -> bool {
        &&& i64::MIN <= self.days() * 86400
        &&& self.unix() <= i64::MAX
    }

    /// Whether the nanoseconds from the GPS epoch can be counted in 64 bits.
    pub open spec fn gps_fits(self) -> bool {
        &&& self.unix_fits()
        &&& i64::MIN <= self.unix() - EPOCH_UNIX
        &&& i64::MIN <= (self.unix() - EPOCH_UNIX) * 1_000_000_000
        &&& self.gps_ns() <= i64::MAX
    }

    /// Whether the fields name a day of the calendar and a time of that day,
    /// a leap second included.
    pub open spec fn valid(self) -> bool {
        &&& is_date(self.year as int, self.month as int, self.day as int)
        &&& self.hour <= 23
        &&& self.minute <= 59
        &&& self.second <= 60
        &&& self.nanos < 1_000_000_000
    }

    /// Whether the date is a day of the calendar and the time one of an ordinary
    /// day, without a leap second; the nanoseconds are left out.
    pub open spec fn on_clock(self) -> bool {
        &&& is_date(self.year as int, self.month as int, self.day as int)
        &&& self.hour <= 23
        &&& self.minute <= 59
        &&& self.second <= 59
    }

    /// Whether this is a time of an ordinary day, without a leap second.
    pub open spec fn ordinary(self) -> bool {
        self.on_clock() && self.nanos < 1_000_000_000
    }

    /// Whether the fields name a day of the calendar and a time of that day.
    pub fn is_valid(&self) -> (r: bool)
        ensures
            r == self.valid(),
    {
        if self.month < 1 || self.month > 12 || self.day < 1 {
            return false;
        }
        let y: i64 = self.year;
        let leap: bool = floor_rem(y, 4) == 0 && (floor_rem(y, 100) != 0 || floor_rem(y, 400) == 0);
        let len: u32 = if self.month == 2 {
            if leap {
                29
            } else {
                28
            }
        } else if self.month == 4 || self.month == 6 || self.month == 9 || self.month == 11 {
            30
        } else {
            31
        };
        self.day <= len && self.hour <= 23 && self.minute <= 59 && self.second <= 60 && self.nanos
            < 1_000_000_000
    }

    fn wide_unix(&self) -> (r: (i128, i128))
        ensures
            r.0 == self.days() * 86400,
            r.1 == self.unix(),
            -400_000_000_000_000_000_000_000_000 <= r.1 <= 400_000_000_000_000_000_000_000_000,
    {
        let y: i128 = self.year as i128;
        let m: i128 = self.month as i128;
        let yy: i128 = if m <= 2 {
            y - 1
        } else {
            y
        };
        let mp: i128 = if m > 2 {
            m - 3
        } else {
            m + 9
        };
        let days: i128 = 365 * yy + wide_floor(yy, 4) - wide_floor(yy, 100) + wide_floor(yy, 400)
            + (153 * mp + 2) / 5 + self.day as i128 - 1 - 719468;
        let day_secs: i128 = days * 86400;
        (
            day_secs,
            day_secs + self.hour as i128 * 3600 + self.minute as i128 * 60 + self.second as i128,
        )
    }

    /// Whether the day and the second can be counted in 64 bits.
    pub fn fits_unix(&self) -> (r: bool)
        ensures
            r == self.unix_fits(),
    {
        let w = self.wide_unix();
        i64::MIN as i128 <= w.0 && w.1 <= i64::MAX as i128
    }

    /// Whether the nanoseconds from the GPS epoch can be counted in 64 bits.
    pub fn fits_gps(&self) -> (r: bool)
        ensures
            r == self.gps_fits(),
    {
        let w = self.wide_unix();
        let secs: i128 = w.1 - EPOCH_UNIX as i128;
        let ns: i128 = secs * 1_000_000_000;
        i64::MIN as i128 <= w.0 && w.1 <= i64::MAX as i128 && i64::MIN as i128 <= secs
            && i64::MIN as i128 <= ns && ns + self.nanos as i128 <= i64::MAX as i128
    }
}

fn wide_floor(n: i128, d: i128) -> (q: i128)
    requires
        d == 4 || d == 100 || d == 400,
        -10_000_000_000_000_000_000 <= n <= 10_000_000_000_000_000_000,
    ensures
        q == n as int / d as int,
{
    if n >= 0 {
        n / d
    } else {
        -((d - 1 - n) / d)
    }
}

fn floor_rem(n: i64, d: i64) -> (r: i64)
    requires
        d > 0,
    ensures
        r == n as int % d as int,
{
    div_mod(n, d).1
}

proof fn lemma_same_parts(k: int, x: int, r: int, y: int, r2: int)
    requires
        0 <= r < k,
        0 <= r2 < k,
        x * k + r == y * k + r2,
    ensures
        x == y,
        r == r2,
{
    assert(x == y) by (nonlinear_arith)
        requires
            0 <= r < k,
            0 <= r2 < k,
            x * k + r == y * k + r2,
    ;
}

/// The day and the time of day follow from a count of nanoseconds.
proof fn lemma_same_clock(
    d: int,
    h: int,
    m: int,
    s: int,
    n: int,
    d2: int,
    h2: int,
    m2: int,
    s2: int,
    n2: int,
)
    requires
        0 <= h <= 23 && 0 <= h2 <= 23,
        0 <= m <= 59 && 0 <= m2 <= 59,
        0 <= s <= 59 && 0 <= s2 <= 59,
        0 <= n < 1_000_000_000 && 0 <= n2 < 1_000_000_000,
        (d * 86400 + h * 3600 + m * 60 + s - EPOCH_UNIX) * 1_000_000_000 + n == (d2 * 86400 + h2
            * 3600 + m2 * 60 + s2 - EPOCH_UNIX) * 1_000_000_000 + n2,
    ensures
        d == d2 && h == h2 && m == m2 && s == s2 && n == n2,
{
    let u = d * 86400 + h * 3600 + m * 60 + s - EPOCH_UNIX;
    let u2 = d2 * 86400 + h2 * 3600 + m2 * 60 + s2 - EPOCH_UNIX;
    lemma_same_parts(1_000_000_000, u, n, u2, n2);
    lemma_same_parts(86400, d, h * 3600 + m * 60 + s, d2, h2 * 3600 + m2 * 60 + s2);
    lemma_same_parts(3600, h, m * 60 + s, h2, m2 * 60 + s2);
    lemma_same_parts(60, m, s, m2, s2);
}

/// Two ordinary civil times at the same nanosecond are the same time.
pub proof fn lemma_civil_unique(a: Civil, b: Civil)
    requires
        a.ordinary(),
        b.ordinary(),
        a.gps_ns() == b.gps_ns(),
    ensures
        a == b,
{
    lemma_same_clock(
        a.days(),
        a.hour as int,
        a.minute as int,
        a.second as int,
        a.nanos as int,
        b.days(),
        b.hour as int,
        b.minute as int,
        b.second as int,
        b.nanos as int,
    );
    lemma_civil_days(a.year as int, a.month as int, a.day as int);
    lemma_civil_days(b.year as int, b.month as int, b.day as int);
    lemma_date_unique(
        a.year as int,
        a.month as int,
        a.day as int,
        b.year as int,
        b.month as int,
        b.day as int,
    );
}

fn split_day(unix: i64, nanos: u32) -> (r: Civil)
    requires
        i64::MIN <= (unix as int / 86400) * 86400,
    ensures
        r.on_clock(),
        r.unix() == unix,
        r.nanos == nanos,
{
    let days: i64 = floor_div(unix, 86400);
    let sod: i64 = unix - days * 86400;
    let (year, month, day) = civil_from_days(days);
    proof {
        lemma_civil_days(year as int, month as int, day as int);
    }
    Civil {
        year,
        month,
        day,
        hour: (sod / 3600) as u32,
        minute: ((sod % 3600) / 60) as u32,
        second: (sod % 60) as u32,
        nanos,
    }
}

fn unix_of(c: Civil) -> (r: i64)
    requires
        c.unix_fits(),
    ensures
        r == c.unix(),
{
    proof {
        assert(-20_000_000_000_000_000 <= c.year <= 20_000_000_000_000_000);
    }
    let days: i64 = days_from_civil(c.year, c.month, c.day);
    days * 86400 + c.hour as i64 * 3600 + c.minute as i64 * 60 + c.second as i64
}

impl GpsTime {
    /// Whether the nanoseconds from the GPS epoch can be counted in 64 bits:
    /// about 292 years to either side.
    pub open spec fn in_range(self) -> bool {
        i64::MIN <= self.0 * TICK_NS <= i64::MAX
    }

    /// Converts ticks to a civil UTC-labelled time, with no leap adjustment.
    pub fn civil(self) -> (r: Civil)
        requires
            self.in_range(),
        ensures
            r.ordinary(),
            r.gps_ns() == self.0 * TICK_NS,
    {
        let (sec, nsec) = div_mod(self.0 * TICK_NS, 1_000_000_000);
        split_day(EPOCH_UNIX + sec, nsec as u32)
    }

    /// The tick of a civil time, rounding down to 100 ns.
    pub fn from_civil(c: Civil) -> (r: GpsTime)
        requires
            c.gps_fits(),
        ensures
            r.0 == c.gps_ns() / TICK_NS as int,
    {
        let unix: i64 = unix_of(c);
        let ns: i64 = (unix - EPOCH_UNIX) * 1_000_000_000 + c.nanos as i64;
        GpsTime(floor_div(ns, TICK_NS))
    }

    /// The tick `tow_ms` milliseconds into GPS week `week`.
    pub fn from_gps_week_millis(week: i64, tow_ms: u32) -> (r: GpsTime)
        requires
            i64::MIN <= week * MS_PER_WEEK,
            i64::MIN <= (week * MS_PER_WEEK + tow_ms) * 1_000_000 <= i64::MAX,
        ensures
            r.0 == (week * MS_PER_WEEK + tow_ms) * 10_000,
    {
        let ms: i64 = week * MS_PER_WEEK + tow_ms as i64;
        GpsTime(ms * 1_000_000 / TICK_NS)
    }

    /// The tick `tow_ticks` ticks into GPS week `week`.
    pub fn from_gps_week_ticks(week: i64, tow_ticks: i64) -> (r: GpsTime)
        requires
            i64::MIN <= week * MS_PER_WEEK * 1_000_000 <= i64::MAX,
            i64::MIN <= week * MS_PER_WEEK * 10_000 + tow_ticks <= i64::MAX,
        ensures
            r.0 == week * MS_PER_WEEK * 10_000 + tow_ticks,
    {
        GpsTime(week * MS_PER_WEEK * 1_000_000 / TICK_NS + tow_ticks)
    }

    /// The GPS week and the whole milliseconds into it.
    pub fn gps_week_millis(self) -> (r: (i64, u32))
        requires
            self.in_range(),
        ensures
            r.1 < MS_PER_WEEK,
            r.0 * MS_PER_WEEK + r.1 == self.0 as int / 10_000,
    {
        let (ms, _) = div_mod(self.0 * TICK_NS, 1_000_000);
        let (week, tow) = div_mod(ms, MS_PER_WEEK);
        (week, tow as u32)
    }

    /// Nanoseconds since the GPS epoch.
    pub fn epoch_nanos(self) -> (r: i64)
        requires
            self.in_range(),
        ensures
            r == self.0 * TICK_NS,
    {
        self.0 * TICK_NS
    }
}

/// Going from ticks to a civil time and back changes nothing, and neither does
/// going from an ordinary civil time with whole ticks to ticks and back.
pub proof fn lemma_civil_round_trip(t: GpsTime, c: Civil)
    requires
        c.ordinary(),
        c.nanos as int % TICK_NS as int == 0,
        t.0 == c.gps_ns() / TICK_NS as int,
    ensures
        c.gps_ns() == t.0 * TICK_NS,
        forall|r: Civil| r.ordinary() && r.gps_ns() == t.0 * TICK_NS ==> r == c,
{
    lemma_whole_ticks(c.unix() - EPOCH_UNIX, c.nanos as int);
    assert forall|r: Civil| r.ordinary() && r.gps_ns() == t.0 * TICK_NS implies r == c by {
        lemma_civil_unique(r, c);
    }
}

/// A nanosecond count whose part below a second has whole ticks has whole ticks.
proof fn lemma_whole_ticks(secs: int, nanos: int)
    requires
        nanos % 100 == 0,
    ensures
        ((secs * 1_000_000_000 + nanos) / 100) * 100 == secs * 1_000_000_000 + nanos,
{
}

/// The week and time of week that a tick was made from are the ones read back
/// from it.
pub proof fn lemma_week_round_trip(t: GpsTime, week: int, tow: int, w: int, m: int)
    requires
        0 <= tow < MS_PER_WEEK,
        t.0 == (week * MS_PER_WEEK + tow) * 10_000,
        0 <= m < MS_PER_WEEK,
        w * MS_PER_WEEK + m == t.0 as int / 10_000,
    ensures
        w == week,
        m == tow,
{
}

// ---- the `t` label ----

/// The label of a civil time: `YYYY-MM-DDTHH:MM:SS.fffffff`.
pub open spec fn civil_label(c: Civil) -> Seq<u8> {
    zero_padded(c.year as nat, 4) + seq![0x2du8] + zero_padded(c.month as nat, 2) + seq![0x2du8]
        + zero_padded(c.day as nat, 2) + seq![0x54u8] + zero_padded(c.hour as nat, 2)
        + seq![0x3au8] + zero_padded(c.minute as nat, 2) + seq![0x3au8] + zero_padded(
        c.second as nat,
        2,
    ) + seq![0x2eu8] + zero_padded(c.nanos as nat / 100, 7)
}

/// The civil years that ticks can reach.
pub proof fn lemma_year_range(c: Civil)
    requires
        c.ordinary(),
        i64::MIN <= c.gps_ns() <= i64::MAX,
    ensures
        1687 <= c.year <= 2272,
{
    lemma_civil_days(c.year as int, c.month as int, c.day as int);
    if c.year < 1687 {
        lemma_epoch_days_ordered(c.year as int, c.month as int, c.day as int, 1687, 1, 1);
    }
    if c.year > 2272 {
        lemma_epoch_days_ordered(2273, 1, 1, c.year as int, c.month as int, c.day as int);
    }
    reveal_with_fuel(crate::calendar::days_before_month, 2);
}

/// The days around the GPS epoch that can be counted in nanoseconds have years of
/// four digits.
pub proof fn lemma_day_in_years(y: int, m: int, d: int, days: int)
    requires
        is_date(y, m, d),
        epoch_days(y, m, d) == days,
        -110_000 <= days <= 120_000,
    ensures
        1600 <= y <= 2400,
{
    lemma_civil_days(y, m, d);
    reveal_with_fuel(crate::calendar::days_before_month, 2);
    if y < 1600 {
        lemma_epoch_days_ordered(y, m, d, 1600, 1, 1);
    }
    if y > 2400 {
        lemma_epoch_days_ordered(2401, 1, 1, y, m, d);
    }
}

/// Splits `s` at two separators; none where there are fewer, or more.
pub open spec fn split3(s: Seq<u8>, sep: u8) -> Option<(Seq<u8>, Seq<u8>, Seq<u8>)> {
    match splitn3(s, sep) {
        Some((a, b, c)) if first_index(c, sep) == c.len() => Some((a, b, c)),
        _ => None,
    }
}

/// Splits `s` at its first two separators; none where there are fewer.
pub open spec fn splitn3(s: Seq<u8>, sep: u8) -> Option<(Seq<u8>, Seq<u8>, Seq<u8>)> {
    let i = first_index(s, sep);
    let r = s.skip(i + 1);
    let j = first_index(r, sep);
    if i < s.len() && j < r.len() {
        Some((s.take(i), r.take(j), r.skip(j + 1)))
    } else {
        None
    }
}

pub(crate) fn exec_splitn3<'a>(s: &'a [u8], sep: u8) -> (r: Option<(&'a [u8], &'a [u8], &'a [u8])>)
    ensures
        r is Some <==> splitn3(s@, sep) is Some,
        r matches Some((a, b, c)) ==> splitn3(s@, sep) == Some((a@, b@, c@)),
{
    let i: usize = find_byte(s, sep);
    if i == s.len() {
        return None;
    }
    let rest = slice_subrange(s, i + 1, s.len());
    assert(rest@ =~= s@.skip(i + 1));
    let j: usize = find_byte(rest, sep);
    if j == rest.len() {
        return None;
    }
    let a = slice_subrange(s, 0, i);
    let b = slice_subrange(rest, 0, j);
    let c = slice_subrange(rest, j + 1, rest.len());
    assert(a@ =~= s@.take(i as int));
    assert(b@ =~= rest@.take(j as int));
    assert(c@ =~= rest@.skip(j + 1));
    Some((a, b, c))
}

/// The civil time that a label names, where it is one: year, month and day, a
/// `T`, hour, minute and second, and seven digits of fraction.
pub open spec fn label_civil(s: Seq<u8>) -> Option<Civil> {
    let i = first_index(s, 0x54);
    let date = s.take(i);
    let time = s.skip(i + 1);
    let k = first_index(time, 0x2e);
    let hms = time.take(k);
    let frac = time.skip(k + 1);
    if i < s.len() && k < time.len() && frac.len() == 7 && all_digits(frac) {
        match (split3(date, 0x2d), split3(hms, 0x3a)) {
            (Some((y, mo, d)), Some((h, mi, se))) => label_fields(y, mo, d, h, mi, se, frac),
            _ => None,
        }
    } else {
        None
    }
}

/// The civil time that the fields of a label name.
pub open spec fn label_fields(
    y: Seq<u8>,
    mo: Seq<u8>,
    d: Seq<u8>,
    h: Seq<u8>,
    mi: Seq<u8>,
    se: Seq<u8>,
    frac: Seq<u8>,
) -> Option<Civil> {
    match (
        within(int_text(y), i64::MIN as int, i64::MAX as int),
        within(uint_text(mo), 1, 12),
        within(uint_text(d), 1, 31),
        within(uint_text(h), 0, 23),
        within(uint_text(mi), 0, 59),
        within(uint_text(se), 0, 60),
        within(uint_text(frac), 0, u32::MAX as int),
    ) {
        (Some(y), Some(mo), Some(d), Some(h), Some(mi), Some(se), Some(f)) => Some(
            Civil {
                year: y as i64,
                month: mo as u32,
                day: d as u32,
                hour: h as u32,
                minute: mi as u32,
                second: se as u32,
                nanos: (f * 100) as u32,
            },
        ),
        _ => None,
    }
}

/// A text of seven bytes denotes a number below ten million.
pub proof fn lemma_seven_digits(s: Seq<u8>)
    requires
        s.len() == 7,
    ensures
        uint_text(s) matches Some(v) ==> 0 <= v < 10_000_000,
{
    let digits = if s[0] == 0x2b { s.skip(1) } else { s };
    if all_digits(digits) {
        reveal_with_fuel(crate::text::digits_value, 8);
        assert forall|i: int| 0 <= i < digits.len() implies is_digit(#[trigger] digits[i]) by {}
        let d6 = digits.drop_last();
        let d5 = d6.drop_last();
        let d4 = d5.drop_last();
        let d3 = d4.drop_last();
        let d2 = d3.drop_last();
        let d1 = d2.drop_last();
        assert(d1.len() <= 1);
        assert(is_digit(digits.last()) && is_digit(d6.last()) && is_digit(d5.last()) && is_digit(
            d4.last(),
        ) && is_digit(d3.last()) && is_digit(d2.last()));
        if d1.len() == 1 {
            assert(is_digit(d1.last()));
        }
    }
}

/// Reads the civil time out of a label.
pub fn parse_label(s: &str) -> (r: Option<Civil>)
    ensures
        r == label_civil(utf8(s@)),
{
    let b = s.as_bytes();
    let i: usize = find_byte(b, 0x54);
    if i == b.len() {
        return None;
    }
    let date = slice_subrange(b, 0, i);
    let time = slice_subrange(b, i + 1, b.len());
    assert(date@ =~= b@.take(i as int));
    assert(time@ =~= b@.skip(i + 1));
    let k: usize = find_byte(time, 0x2e);
    if k == time.len() {
        return None;
    }
    let hms = slice_subrange(time, 0, k);
    let frac = slice_subrange(time, k + 1, time.len());
    assert(hms@ =~= time@.take(k as int));
    assert(frac@ =~= time@.skip(k + 1));
    if frac.len() != 7 || !is_digits(frac) {
        return None;
    }
    let (y, mo, d) = match exec_splitn3(date, 0x2d) {
        Some(p) => p,
        None => {
            return None;
        },
    };
    let (h, mi, se) = match exec_splitn3(hms, 0x3a) {
        Some(p) => p,
        None => {
            return None;
        },
    };
    if find_byte(d, 0x2d) != d.len() || find_byte(se, 0x3a) != se.len() {
        return None;
    }
    proof {
        lemma_seven_digits(frac@);
    }
    match (
        parse_i64(y),
        parse_u32(mo),
        parse_u32(d),
        parse_u32(h),
        parse_u32(mi),
        parse_u32(se),
        parse_u32(frac),
    ) {
        (
            Some(year),
            Some(month),
            Some(day),
            Some(hour),
            Some(minute),
            Some(second),
            Some(frac7),
        ) => {
            if month < 1 || month > 12 || day < 1 || day > 31 || hour > 23 || minute > 59 || second
                > 60 {
                return None;
            }
            Some(Civil { year, month, day, hour, minute, second, nanos: frac7 * 100 })
        },
        _ => None,
    }
}

/// Whether the time that a label names, if it names one, lies in the range of
/// [`GpsTime`].
pub open spec fn label_in_range(s: Seq<u8>) -> bool {
    label_civil(s) matches Some(c) ==> c.gps_fits()
}

/// Parses a `t` label: `YYYY-MM-DDTHH:MM:SS.fffffff` with seven fraction digits.
pub fn parse_time(s: &str) -> (r: Result<GpsTime, String>)
    requires
        label_in_range(utf8(s@)),
    ensures
        match label_civil(utf8(s@)) {
            Some(c) => r == Ok::<GpsTime, String>(
                GpsTime((c.gps_ns() / TICK_NS as int) as i64),
            ),
            None => r matches Err(e) && e@ == "rinex: invalid time "@ + quoted_text(s@),
        },
{
    match parse_label(s) {
        Some(c) => Ok(GpsTime::from_civil(c)),
        None => Err(with_quoted("rinex: invalid time ", s)),
    }
}

impl GpsTime {
    /// The label of this time: `YYYY-MM-DDTHH:MM:SS.fffffff`.
    pub fn to_string(&self) -> (r: String)
        requires
            self.in_range(),
        ensures
            exists|c: Civil|
                c.ordinary() && c.gps_ns() == self.0 * TICK_NS && utf8(r@) == civil_label(c),
    {
        let c = self.civil();
        proof {
            lemma_year_range(c);
            lemma_label_shape(c);
        }
        let mut out: Vec<u8> = Vec::new();
        push_dec_padded(&mut out, c.year as u64, 4, 0x30);
        out.push(0x2d);
        push_dec_padded(&mut out, c.month as u64, 2, 0x30);
        out.push(0x2d);
        push_dec_padded(&mut out, c.day as u64, 2, 0x30);
        out.push(0x54);
        push_dec_padded(&mut out, c.hour as u64, 2, 0x30);
        out.push(0x3a);
        push_dec_padded(&mut out, c.minute as u64, 2, 0x30);
        out.push(0x3a);
        push_dec_padded(&mut out, c.second as u64, 2, 0x30);
        out.push(0x2e);
        push_dec_padded(&mut out, (c.nanos / 100) as u64, 7, 0x30);
        assert(out@ =~= civil_label(c));
        ascii_text(out.as_slice())
    }
}

/// Whether a text of 27 bytes has the separators of a label in their places and
/// digits everywhere else.
spec fn label_shaped(l: Seq<u8>) -> bool {
    &&& l.len() == 27
    &&& l[4] == 0x2d && l[7] == 0x2d && l[10] == 0x54 && l[13] == 0x3a && l[16] == 0x3a && l[19]
        == 0x2e
    &&& forall|i: int|
        0 <= i < 27 && i != 4 && i != 7 && i != 10 && i != 13 && i != 16 && i != 19 ==> is_digit(
            #[trigger] l[i],
        )
}

/// A label consists of its fields.
proof fn lemma_label_shape(c: Civil)
    requires
        c.ordinary(),
        0 <= c.year <= 9999,
    ensures
        crate::text::is_ascii(civil_label(c)),
        label_shaped(civil_label(c)),
        civil_label(c).take(4) == zero_padded(c.year as nat, 4),
        civil_label(c).subrange(5, 7) == zero_padded(c.month as nat, 2),
        civil_label(c).subrange(8, 10) == zero_padded(c.day as nat, 2),
        civil_label(c).subrange(11, 13) == zero_padded(c.hour as nat, 2),
        civil_label(c).subrange(14, 16) == zero_padded(c.minute as nat, 2),
        civil_label(c).subrange(17, 19) == zero_padded(c.second as nat, 2),
        civil_label(c).skip(20) == zero_padded(c.nanos as nat / 100, 7),
{
    let y = zero_padded(c.year as nat, 4);
    let mo = zero_padded(c.month as nat, 2);
    let d = zero_padded(c.day as nat, 2);
    let h = zero_padded(c.hour as nat, 2);
    let mi = zero_padded(c.minute as nat, 2);
    let se = zero_padded(c.second as nat, 2);
    let f = zero_padded(c.nanos as nat / 100, 7);
    lemma_field_values(c);
    let l = civil_label(c);
    assert(l.len() == 27);
    assert(l.take(4) =~= y);
    assert(l.subrange(5, 7) =~= mo);
    assert(l.subrange(8, 10) =~= d);
    assert(l.subrange(11, 13) =~= h);
    assert(l.subrange(14, 16) =~= mi);
    assert(l.subrange(17, 19) =~= se);
    assert(l.skip(20) =~= f);
    assert forall|i: int|
        0 <= i < 27 && i != 4 && i != 7 && i != 10 && i != 13 && i != 16 && i
            != 19 implies is_digit(#[trigger] l[i]) by {
        if i < 4 {
            assert(l[i] == y[i]);
        } else if 5 <= i < 7 {
            assert(l[i] == mo[i - 5]);
        } else if 8 <= i < 10 {
            assert(l[i] == d[i - 8]);
        } else if 11 <= i < 13 {
            assert(l[i] == h[i - 11]);
        } else if 14 <= i < 16 {
            assert(l[i] == mi[i - 14]);
        } else if 17 <= i < 19 {
            assert(l[i] == se[i - 17]);
        } else if i >= 20 {
            assert(l[i] == f[i - 20]);
        }
    }
}

/// The zero-padded fields of a label denote the numbers that they were made of.
proof fn lemma_field_values(c: Civil)
    requires
        c.ordinary(),
        0 <= c.year <= 9999,
    ensures
        ({
            let y = zero_padded(c.year as nat, 4);
            &&& y.len() == 4 && all_digits(y) && uint_text(y) == Some(c.year as int)
            &&& int_text(y) == Some(c.year as int)
        }),
        ({
            let m = zero_padded(c.month as nat, 2);
            m.len() == 2 && all_digits(m) && uint_text(m) == Some(c.month as int)
        }),
        ({
            let d = zero_padded(c.day as nat, 2);
            d.len() == 2 && all_digits(d) && uint_text(d) == Some(c.day as int)
        }),
        ({
            let h = zero_padded(c.hour as nat, 2);
            h.len() == 2 && all_digits(h) && uint_text(h) == Some(c.hour as int)
        }),
        ({
            let m = zero_padded(c.minute as nat, 2);
            m.len() == 2 && all_digits(m) && uint_text(m) == Some(c.minute as int)
        }),
        ({
            let s = zero_padded(c.second as nat, 2);
            s.len() == 2 && all_digits(s) && uint_text(s) == Some(c.second as int)
        }),
        ({
            let f = zero_padded(c.nanos as nat / 100, 7);
            f.len() == 7 && all_digits(f) && uint_text(f) == Some(c.nanos as int / 100)
        }),
{
    lemma_dec_len(c.year as nat);
    lemma_dec_len(c.month as nat);
    lemma_dec_len(c.day as nat);
    lemma_dec_len(c.hour as nat);
    lemma_dec_len(c.minute as nat);
    lemma_dec_len(c.second as nat);
    lemma_dec_len(c.nanos as nat / 100);
    lemma_zero_padded(c.year as nat, 4);
    lemma_zero_padded(c.month as nat, 2);
    lemma_zero_padded(c.day as nat, 2);
    lemma_zero_padded(c.hour as nat, 2);
    lemma_zero_padded(c.minute as nat, 2);
    lemma_zero_padded(c.second as nat, 2);
    lemma_zero_padded(c.nanos as nat / 100, 7);
    assert(is_digit(zero_padded(c.year as nat, 4)[0]));
}

/// Where a label is split.
proof fn lemma_label_split(l: Seq<u8>)
    requires
        label_shaped(l),
    ensures
        label_civil(l) == label_fields(
            l.take(4),
            l.subrange(5, 7),
            l.subrange(8, 10),
            l.subrange(11, 13),
            l.subrange(14, 16),
            l.subrange(17, 19),
            l.skip(20),
        ),
{
    assert(forall|i: int| 0 <= i < 10 ==> #[trigger] l[i] != 0x54);
    lemma_first_index_is(l, 0x54, 10);
    let date = l.take(10);
    let time = l.skip(11);
    assert forall|j: int| 0 <= j < 8 implies time[j] != 0x2e by {
        assert(time[j] == l[j + 11]);
    }
    lemma_first_index_is(time, 0x2e, 8);
    let hms = time.take(8);
    assert(time.skip(9) =~= l.skip(20));
    lemma_first_index_is(date, 0x2d, 4);
    let dr = date.skip(5);
    assert forall|j: int| 0 <= j < 2 implies dr[j] != 0x2d by {
        assert(dr[j] == l[j + 5]);
    }
    lemma_first_index_is(dr, 0x2d, 2);
    let dd = dr.skip(3);
    assert forall|j: int| 0 <= j < 2 implies dd[j] != 0x2d by {
        assert(dd[j] == l[j + 8]);
    }
    lemma_first_index_is(dd, 0x2d, 2);
    assert(date.take(4) =~= l.take(4));
    assert(dr.take(2) =~= l.subrange(5, 7));
    assert(dd =~= l.subrange(8, 10));
    assert forall|j: int| 0 <= j < 2 implies hms[j] != 0x3a by {
        assert(hms[j] == l[j + 11]);
    }
    lemma_first_index_is(hms, 0x3a, 2);
    let hr = hms.skip(3);
    assert forall|j: int| 0 <= j < 2 implies hr[j] != 0x3a by {
        assert(hr[j] == l[j + 14]);
    }
    lemma_first_index_is(hr, 0x3a, 2);
    let hs = hr.skip(3);
    assert forall|j: int| 0 <= j < 2 implies hs[j] != 0x3a by {
        assert(hs[j] == l[j + 17]);
    }
    lemma_first_index_is(hs, 0x3a, 2);
    assert(hms.take(2) =~= l.subrange(11, 13));
    assert(hr.take(2) =~= l.subrange(14, 16));
    assert(hs =~= l.subrange(17, 19));
}

/// Reading the label of a time gives the time back: a label written by
/// [`GpsTime::to_string`] is read by [`parse_time`] as the tick it came from.
pub proof fn lemma_label_round_trip(t: GpsTime, c: Civil)
    requires
        t.in_range(),
        c.ordinary(),
        c.gps_ns() == t.0 * TICK_NS,
        c.gps_fits(),
    ensures
        label_civil(civil_label(c)) == Some(c),
        label_in_range(civil_label(c)),
        c.gps_ns() / TICK_NS as int == t.0,
{
    let l = civil_label(c);
    lemma_tick_civil(t, c);
    assert(label_civil(l) == label_fields(
        zero_padded(c.year as nat, 4),
        zero_padded(c.month as nat, 2),
        zero_padded(c.day as nat, 2),
        zero_padded(c.hour as nat, 2),
        zero_padded(c.minute as nat, 2),
        zero_padded(c.second as nat, 2),
        zero_padded(c.nanos as nat / 100, 7),
    )) by {
        lemma_label_shape(c);
        lemma_label_split(l);
    }
    assert(label_civil(l) == Some(c)) by {
        lemma_field_values(c);
    }
}

/// The civil time of a tick has whole ticks and a year of four digits.
pub proof fn lemma_tick_civil(t: GpsTime, c: Civil)
    requires
        t.in_range(),
        c.ordinary(),
        c.gps_ns() == t.0 * TICK_NS,
    ensures
        c.gps_ns() / TICK_NS as int == t.0,
        c.nanos as int % 100 == 0,
        1687 <= c.year <= 2272,
{
    lemma_year_range(c);
    let q = t.0 - (c.unix() - EPOCH_UNIX) * 10_000_000;
    assert(c.nanos == 100 * q);
}

// ---- identifiers ----

/// A RINEX satellite identifier such as `G03`, stored as three ASCII bytes.
#[derive(Clone, Copy, Debug, Eq, PartialOrd, Ord, Hash)]
pub struct SatId(pub [u8; 3]);

impl PartialEq for SatId {
    fn eq(&self, other: &SatId) -> (r: bool) {
        let r = self.0[0] == other.0[0] && self.0[1] == other.0[1] && self.0[2] == other.0[2];
        proof {
            if r {
                assert(self.0 =~= other.0);
            }
        }
        r
    }
}

impl vstd::std_specs::cmp::PartialEqSpecImpl for SatId {
    open spec fn obeys_eq_spec() -> bool {
        true
    }

    open spec fn eq_spec(&self, other: &SatId) -> bool {
        *self == *other
    }
}

/// Whether `b` is the letter of a satellite system.
pub open spec fn is_system(b: u8) -> bool {
    // G, R, E, S, J, C, I
    b == 0x47 || b == 0x52 || b == 0x45 || b == 0x53 || b == 0x4a || b == 0x43 || b == 0x49
}

/// Whether three bytes are a system letter and a two-digit number that is not 0.
pub open spec fn sat_valid(b: Seq<u8>) -> bool {
    &&& b.len() == 3
    &&& is_system(b[0])
    &&& is_digit(b[1])
    &&& is_digit(b[2])
    &&& !(b[1] == 0x30 && b[2] == 0x30)
}

/// The bytes as a string where they are valid UTF-8, else the empty string.
pub open spec fn id_text(b: Seq<u8>) -> Seq<u8> {
    if valid_utf8(b) {
        b
    } else {
        Seq::empty()
    }
}

/// Whether `b` is the letter of a satellite system.
pub fn system_letter(b: u8) -> (r: bool)
    ensures
        r == is_system(b),
{
    b == 0x47 || b == 0x52 || b == 0x45 || b == 0x53 || b == 0x4a || b == 0x43 || b == 0x49
}

fn digit(b: u8) -> (r: bool)
    ensures
        r == is_digit(b),
{
    0x30 <= b && b <= 0x39
}

fn id_str(b: &[u8]) -> (r: &str)
    ensures
        utf8(r@) == id_text(b@),
{
    let r = utf8_or_empty(b);
    proof {
        if !valid_utf8(b@) {
            assert(r@ =~= Seq::empty());
            assert(utf8(Seq::empty()) =~= Seq::empty());
        }
    }
    r
}

impl SatId {
    /// The letter of the satellite system.
    pub fn system(self) -> (r: u8)
        ensures
            r == self.0@[0],
    {
        self.0[0]
    }

    /// Whether this is a system letter and a two-digit number that is not 0.
    pub fn is_valid(self) -> (r: bool)
        ensures
            r == sat_valid(self.0@),
    {
        system_letter(self.0[0]) && digit(self.0[1]) && digit(self.0[2]) && !(self.0[1] == 0x30
            && self.0[2] == 0x30)
    }

    pub fn as_str(&self) -> (r: &str)
        ensures
            utf8(r@) == id_text(self.0@),
    {
        id_str(self.0.as_slice())
    }

    /// The identifier of a system letter and a number in two digits: `G` and 3
    /// make `G03`. Of a number above 99 the last two digits are kept.
    pub fn format(sys: u8, num: u8) -> (r: SatId)
        ensures
            r == sat_id(sys, num),
    {
        SatId([sys, 0x30 + (num / 10) % 10, 0x30 + num % 10])
    }

    /// Reads a satellite identifier.
    pub fn parse(s: &str) -> (r: Result<SatId, ParseIdError>)
        ensures
            sat_valid(utf8(s@)) ==> (r matches Ok(id) && id.0@ == utf8(s@)),
            !sat_valid(utf8(s@)) ==> r is Err,
    {
        match SatId::from_bytes(s.as_bytes()) {
            Some(id) => Ok(id),
            None => Err(ParseIdError),
        }
    }

    /// Reads a satellite identifier from bytes.
    pub fn from_bytes(b: &[u8]) -> (r: Option<SatId>)
        ensures
            sat_valid(b@) ==> (r matches Some(id) && id.0@ == b@),
            !sat_valid(b@) ==> r is None,
    {
        if b.len() == 3 {
            let id = SatId([b[0], b[1], b[2]]);
            assert(id.0@ =~= b@);
            if id.is_valid() {
                return Some(id);
            }
        }
        None
    }
}

/// The identifier of a system letter and a number in two digits.
pub open spec fn sat_id(sys: u8, num: u8) -> SatId {
    SatId([sys, (0x30 + (num / 10) % 10) as u8, (0x30 + num % 10) as u8])
}

/// The identifier that [`SatId::format`] makes of a system letter and a number
/// from 1 to 99 is valid.
pub proof fn lemma_format_valid(sys: u8, num: u8)
    requires
        is_system(sys),
        1 <= num <= 99,
    ensures
        sat_valid(sat_id(sys, num).0@),
{
}

/// Error parsing a [`SatId`] or [`SigId`] from a string.
#[derive(Debug, Clone, Copy, PartialEq, Eq, Structural)]
pub struct ParseIdError;

impl ParseIdError {
    /// The message of the error.
    pub fn to_string(&self) -> (r: String)
        ensures
            r@ == "invalid GNSS identifier"@,
    {
        "invalid GNSS identifier".to_owned()
    }
}

impl std::str::FromStr for SatId {
    type Err = ParseIdError;

    fn from_str(s: &str) -> (r: Result<SatId, ParseIdError>) {
        SatId::parse(s)
    }
}

/// A RINEX signal identifier such as `1C`, stored as two ASCII bytes.
#[derive(Clone, Copy, Debug, Eq, PartialOrd, Ord, Hash)]
pub struct SigId(pub [u8; 2]);

impl PartialEq for SigId {
    fn eq(&self, other: &SigId) -> (r: bool) {
        let r = self.0[0] == other.0[0] && self.0[1] == other.0[1];
        proof {
            if r {
                assert(self.0 =~= other.0);
            }
        }
        r
    }
}

impl vstd::std_specs::cmp::PartialEqSpecImpl for SigId {
    open spec fn obeys_eq_spec() -> bool {
        true
    }

    open spec fn eq_spec(&self, other: &SigId) -> bool {
        *self == *other
    }
}

/// Whether two bytes are a band digit from 1 to 9 and an upper-case letter.
pub open spec fn sig_valid(b: Seq<u8>) -> bool {
    b.len() == 2 && 0x31 <= b[0] <= 0x39 && 0x41 <= b[1] <= 0x5a
}

impl SigId {
    /// The band digit.
    pub fn band(self) -> (r: u8)
        ensures
            r == self.0@[0],
    {
        self.0[0]
    }

    /// Whether this is a band digit and an upper-case attribute letter.
    pub fn is_valid(self) -> (r: bool)
        ensures
            r == sig_valid(self.0@),
    {
        let b: u8 = self.0[0];
        let a: u8 = self.0[1];
        0x31 <= b && b <= 0x39 && 0x41 <= a && a <= 0x5a
    }

    pub fn as_str(&self) -> (r: &str)
        ensures
            utf8(r@) == id_text(self.0@),
    {
        id_str(self.0.as_slice())
    }

    /// The full three-character observation code for `typ` (`C`/`L`/`D`/`S`).
    pub fn code(self, typ: u8) -> (r: ObsCode)
        ensures
            r == obs_code(self, typ),
    {
        ObsCode([typ, self.0[0], self.0[1]])
    }

    /// Reads a signal identifier.
    pub fn parse(s: &str) -> (r: Result<SigId, ParseIdError>)
        ensures
            sig_valid(utf8(s@)) ==> (r matches Ok(id) && id.0@ == utf8(s@)),
            !sig_valid(utf8(s@)) ==> r is Err,
    {
        let b = s.as_bytes();
        if b.len() == 2 {
            let id = SigId([b[0], b[1]]);
            assert(id.0@ =~= b@);
            if id.is_valid() {
                return Ok(id);
            }
        }
        Err(ParseIdError)
    }
}

/// The observation code of a signal and an observation type.
pub open spec fn obs_code(sig: SigId, typ: u8) -> ObsCode {
    ObsCode([typ, sig.0@[0], sig.0@[1]])
}

impl std::str::FromStr for SigId {
    type Err = ParseIdError;

    fn from_str(s: &str) -> (r: Result<SigId, ParseIdError>) {
        SigId::parse(s)
    }
}

/// A complete three-character RINEX observation code such as `C1C`.
#[derive(Clone, Copy, Debug, Eq, PartialOrd, Ord, Hash)]
pub struct ObsCode(pub [u8; 3]);

impl PartialEq for ObsCode {
    fn eq(&self, other: &ObsCode) -> (r: bool) {
        let r = self.0[0] == other.0[0] && self.0[1] == other.0[1] && self.0[2] == other.0[2];
        proof {
            if r {
                assert(self.0 =~= other.0);
            }
        }
        r
    }
}

impl vstd::std_specs::cmp::PartialEqSpecImpl for ObsCode {
    open spec fn obeys_eq_spec() -> bool {
        true
    }

    open spec fn eq_spec(&self, other: &ObsCode) -> bool {
        *self == *other
    }
}

impl ObsCode {
    pub fn as_str(&self) -> (r: &str)
        ensures
            utf8(r@) == id_text(self.0@),
    {
        id_str(self.0.as_slice())
    }

    /// The observation type: `C`, `L`, `D` or `S`.
    pub fn obs_type(self) -> (r: u8)
        ensures
            r == self.0@[0],
    {
        self.0[0]
    }

    /// The signal that the code is of.
    pub fn signal(self) -> (r: SigId)
        ensures
            r == code_signal(self),
    {
        SigId([self.0[1], self.0[2]])
    }
}

/// The signal that a code is of.
pub open spec fn code_signal(c: ObsCode) -> SigId {
    SigId([c.0@[1], c.0@[2]])
}

/// A code is made of its type and its signal.
pub proof fn lemma_code_parts(sig: SigId, typ: u8)
    ensures
        code_signal(obs_code(sig, typ)) == sig,
        obs_code(sig, typ).0@[0] == typ,
{
    assert(code_signal(obs_code(sig, typ)).0 =~= sig.0);
}

pub const TYPE_CODE: u8 = 0x43;

pub const TYPE_PHASE: u8 = 0x4c;

pub const TYPE_DOPPLER: u8 = 0x44;

pub const TYPE_SIGNAL_STRENGTH: u8 = 0x53;

// ---- observations ----

/// Per-signal observation values.
#[derive(Clone, Copy, Debug, PartialEq)]
pub struct SignalValues<F, G> {
    /// GLONASS frequency channel.
    pub frq: Option<i8>,
    /// Pseudorange in metres.
    pub pr: Option<F>,
    /// Carrier phase in cycles.
    pub cp: Option<F>,
    /// Doppler shift in hertz.
    pub dop: Option<F>,
    /// Signal strength in dB-Hz.
    pub cn0: Option<G>,
    /// The carrier-phase arc: it grows by one at each loss of lock.
    pub arc: u32,
    /// Half-cycle ambiguity.
    pub hc: bool,
    /// BOC tracking.
    pub bt: bool,
    /// The loss-of-lock flag that a converter emits and
    /// [`LossOfLockSink`](crate::arc::LossOfLockSink) turns into `arc`. It is
    /// never written out.
    pub ll: bool,
}

/// The values of a signal of which nothing was measured.
pub open spec fn no_values<F, G>() -> SignalValues<F, G> {
    SignalValues {
        frq: None,
        pr: None,
        cp: None,
        dop: None,
        cn0: None,
        arc: 0,
        hc: false,
        bt: false,
        ll: false,
    }
}

impl<F, G> Default for SignalValues<F, G> {
    fn default() -> (r: SignalValues<F, G>)
        ensures
            r == no_values::<F, G>(),
    {
        SignalValues {
            frq: None,
            pr: None,
            cp: None,
            dop: None,
            cn0: None,
            arc: 0,
            hc: false,
            bt: false,
            ll: false,
        }
    }
}

/// The RINEX loss-of-lock indicator of a signal's flags.
pub open spec fn lli_of(lost: bool, hc: bool, bt: bool) -> u8 {
    let a = if lost { 1int } else { 0 };
    let b = if hc { 2int } else { 0 };
    let c = if bt { 4int } else { 0 };
    (a + b + c) as u8
}

impl<F, G> SignalValues<F, G> {
    /// Whether nothing but the loss-of-lock flag could be set.
    pub open spec fn zero(self) -> bool {
        self == (SignalValues { ll: self.ll, ..no_values::<F, G>() })
    }

    pub fn is_zero(&self) -> (r: bool)
        ensures
            r == self.zero(),
    {
        self.frq.is_none() && self.pr.is_none() && self.cp.is_none() && self.dop.is_none()
            && self.cn0.is_none() && self.arc == 0 && !self.hc && !self.bt
    }

    /// Sets the loss-of-lock flag and the half-cycle and BOC bits from a RINEX
    /// loss-of-lock indicator. `arc` is assigned later by the
    /// [`LossOfLockSink`](crate::arc::LossOfLockSink).
    pub fn set_lli(&mut self, lli: u8)
        ensures
            *final(self) == with_lli(*old(self), lli),
    {
        self.ll = lli & LLI_LOST_LOCK != 0;
        self.hc = lli & LLI_HALF_CYCLE != 0;
        self.bt = lli & LLI_BOC != 0;
        proof {
            assert((lli & 1 != 0) == (lli % 2 == 1) && (lli & 2 != 0) == ((lli / 2) % 2 == 1) && (
            lli & 4 != 0) == ((lli / 4) % 2 == 1)) by (bit_vector);
        }
    }

    /// The RINEX loss-of-lock indicator of these values.
    pub fn rinex_lli(&self, arc_changed: bool) -> (r: u8)
        ensures
            r == lli_of(arc_changed, self.hc, self.bt),
            r <= 7,
    {
        let mut x: u8 = 0;
        if arc_changed {
            x = x | LLI_LOST_LOCK;
        }
        if self.hc {
            x = x | LLI_HALF_CYCLE;
        }
        if self.bt {
            x = x | LLI_BOC;
        }
        proof {
            assert(0u8 | 1 == 1 && 0u8 | 2 == 2 && 1u8 | 2 == 3 && 0u8 | 4 == 4 && 1u8 | 4 == 5
                && 2u8 | 4 == 6 && 3u8 | 4 == 7) by (bit_vector);
        }
        x
    }
}

/// `v` with the flags of a RINEX loss-of-lock indicator: bit 0 is loss of lock,
/// bit 1 the half-cycle ambiguity, bit 2 BOC tracking.
pub open spec fn with_lli<F, G>(v: SignalValues<F, G>, lli: u8) -> SignalValues<F, G> {
    SignalValues {
        ll: lli % 2 == 1,
        hc: (lli / 2) % 2 == 1,
        bt: (lli / 4) % 2 == 1,
        ..v
    }
}

/// Setting the flags from the indicator that was made of flags gives those flags
/// back.
pub proof fn lemma_lli_round_trip<F, G>(v: SignalValues<F, G>, lost: bool, hc: bool, bt: bool)
    ensures
        with_lli(v, lli_of(lost, hc, bt)) == (SignalValues { ll: lost, hc: hc, bt: bt, ..v }),
{
}

/// One satellite-signal observation at one epoch.
#[derive(Clone, Copy, Debug)]
pub struct SignalObservation<F, G> {
    pub t: GpsTime,
    pub sat: SatId,
    pub sig: SigId,
    pub v: SignalValues<F, G>,
}

impl<F, G> SignalObservation<F, G> {
    /// The satellite and signal that the observation is of.
    pub open spec fn key(self) -> SignalKey {
        SignalKey { sat: self.sat, sig: self.sig }
    }

    /// Whether any observation code is present.
    pub open spec fn any_code(self) -> bool {
        self.v.pr is Some || self.v.cp is Some || self.v.dop is Some || self.v.cn0 is Some
    }

    pub fn system(&self) -> (r: u8)
        ensures
            r == self.sat.0@[0],
    {
        self.sat.system()
    }

    /// Whether any observation code (C/L/D/S) is present.
    pub fn has_any_code(&self) -> (r: bool)
        ensures
            r == self.any_code(),
    {
        self.v.pr.is_some() || self.v.cp.is_some() || self.v.dop.is_some() || self.v.cn0.is_some()
    }
}

/// A satellite and one of its signals.
#[derive(Clone, Copy, Debug, PartialEq, Eq, PartialOrd, Ord, Hash)]
pub struct SignalKey {
    pub sat: SatId,
    pub sig: SigId,
}

/// The number that stands for a satellite.
pub open spec fn sat_number(sat: SatId) -> u64 {
    (sat.0@[0] * 65536 + sat.0@[1] * 256 + sat.0@[2]) as u64
}

/// The number that stands for a satellite and signal.
pub open spec fn key_number(k: SignalKey) -> u64 {
    (sat_number(k.sat) * 65536 + k.sig.0@[0] * 256 + k.sig.0@[1]) as u64
}

/// The number that stands for a satellite.
pub fn sat_code(sat: SatId) -> (r: u64)
    ensures
        r == sat_number(sat),
        r < 16_777_216,
{
    sat.0[0] as u64 * 65536 + sat.0[1] as u64 * 256 + sat.0[2] as u64
}

impl SignalKey {
    /// The number that stands for this satellite and signal.
    pub fn number(self) -> (r: u64)
        ensures
            r == key_number(self),
    {
        sat_code(self.sat) * 65536 + self.sig.0[0] as u64 * 256 + self.sig.0[1] as u64
    }
}

/// Different satellites have different numbers.
pub proof fn lemma_sat_number_unique(a: SatId, b: SatId)
    ensures
        sat_number(a) == sat_number(b) <==> a == b,
{
    if sat_number(a) == sat_number(b) {
        assert(a.0@[0] == b.0@[0] && a.0@[1] == b.0@[1] && a.0@[2] == b.0@[2]);
        assert(a.0 =~= b.0);
    }
}

/// Different satellites and signals have different numbers.
pub broadcast proof fn lemma_key_number_unique(a: SignalKey, b: SignalKey)
    ensures
        #[trigger] key_number(a) == #[trigger] key_number(b) <==> a == b,
{
    if key_number(a) == key_number(b) {
        assert(sat_number(a.sat) < 16_777_216 && sat_number(b.sat) < 16_777_216);
        assert(sat_number(a.sat) == sat_number(b.sat));
        lemma_sat_number_unique(a.sat, b.sat);
        assert(a.sig.0@[0] == b.sig.0@[0] && a.sig.0@[1] == b.sig.0@[1]);
        assert(a.sig.0 =~= b.sig.0);
    }
}

/// An instant in time, used for metadata run dates (Unix scale).
#[derive(Clone, Copy, Debug, PartialEq, Eq, Structural)]
pub struct Instant {
    pub secs: i64,
    pub nanos: u32,
}

impl Instant {
    /// Whether the start of the instant's day can be counted in 64 bits.
    pub open spec fn day_fits(self) -> bool {
        i64::MIN <= (self.secs as int / 86400) * 86400
    }

    /// Nanoseconds from the GPS epoch.
    pub open spec fn gps_ns(self) -> int {
        (self.secs - EPOCH_UNIX) * 1_000_000_000 + self.nanos
    }

    /// Whether the nanoseconds from the GPS epoch can be counted in 64 bits.
    pub open spec fn gps_fits(self) -> bool {
        &&& i64::MIN <= (self.secs - EPOCH_UNIX) * 1_000_000_000
        &&& self.gps_ns() <= i64::MAX
    }

    /// The civil time of the instant.
    pub fn civil(self) -> (r: Civil)
        requires
            self.day_fits(),
        ensures
            r.on_clock(),
            r.unix() == self.secs,
            r.nanos == self.nanos,
    {
        split_day(self.secs, self.nanos)
    }

    /// The instant of a civil time.
    pub fn from_civil(c: Civil) -> (r: Instant)
        requires
            c.unix_fits(),
        ensures
            r.secs == c.unix(),
            r.nanos == c.nanos,
    {
        Instant { secs: unix_of(c), nanos: c.nanos }
    }

    /// Nanoseconds since the GPS epoch (for week-constraint comparisons).
    pub fn gps_nanos(self) -> (r: i64)
        requires
            self.gps_fits(),
        ensures
            r == self.gps_ns(),
    {
        (self.secs - EPOCH_UNIX) * 1_000_000_000 + self.nanos as i64
    }

    pub fn is_zero(self) -> (r: bool)
        ensures
            r == (self.secs == 0 && self.nanos == 0),
    {
        self.secs == 0 && self.nanos == 0
    }
}

/// Going from an instant to its civil time and back changes nothing.
pub proof fn lemma_instant_round_trip(a: Instant, c: Civil, b: Instant)
    requires
        c.unix() == a.secs,
        c.nanos == a.nanos,
        b.secs == c.unix(),
        b.nanos == c.nanos,
    ensures
        a == b,
{
}

} // verus!
