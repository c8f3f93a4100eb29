//! obsj records: what a JSON line says, and the times in it.
//!
//! The reader tells an observation from a metadata record by a top-level `t` and
//! rejects the legacy keys `ssi`, `lli` and `ll`.

use crate::error::Result;
use crate::metadata::{
    no_metadata, texts, Antenna, Marker, Metadata, MetadataRun, MetadataView, Receiver,
};
use crate::obs::{
    exec_splitn3, splitn3, Civil, GpsTime, Instant, SatId, SigId, SignalObservation, SignalValues,
};
use crate::rinex_read::split_point;
use crate::rinex_write::{civil_of, lemma_instant_civil, push_year, year_text};
use crate::sink::{Collector, Sink};
use crate::text::{
    all_digits, ascii_text, dec, find_byte, first_index, int_text, is_ascii, is_digit, is_digits,
    lemma_dec_len, lemma_dec_value, lemma_first_index_is, lemma_zero_padded, number_string,
    number_text, parse_i64, parse_u32, push_bytes, push_dec_padded, push_repeated, repeated,
    uint_text, utf8, within, zero_padded,
};
use vstd::prelude::*;
use vstd::slice::slice_subrange;

verus! {

// ---- times ----

/// Where the last sign in a text stands; -1 where there is none.
pub open spec fn last_sign(s: Seq<u8>) -> int
    decreases s.len(),
{
    if s.len() == 0 {
        -1
    } else if s.last() == 0x2b || s.last() == 0x2d {
        s.len() - 1
    } else {
        last_sign(s.drop_last())
    }
}

/// The time of day in a text, and the offset of its zone in seconds: none where
/// there is a sign but no hours and minutes of a day behind it.
pub open spec fn zone_of(s: Seq<u8>) -> Option<(Seq<u8>, int)> {
    let i = last_sign(s);
    if s.len() > 0 && s.last() == 0x5a {
        Some((s.drop_last(), 0))
    } else if i < 0 {
        Some((s, 0))
    } else {
        let zone = s.skip(i + 1);
        let k = first_index(zone, 0x3a);
        let h = within(int_text(zone.take(k)), 0, 23);
        let m = within(int_text(zone.skip(k + 1)), 0, 59);
        if k < zone.len() && h is Some && m is Some {
            let seconds = h->0 * 3600 + m->0 * 60;
            Some(
                (
                    s.take(i),
                    if s[i] == 0x2b {
                        seconds
                    } else {
                        -seconds
                    },
                ),
            )
        } else {
            None
        }
    }
}

/// The first nine digits of a fraction, filled up with zeros.
pub open spec fn nine_places(s: Seq<u8>) -> Seq<u8> {
    (s + repeated(0x30, 9)).take(9)
}

/// The nanoseconds of a fraction.
pub open spec fn nanos_of(fraction: Seq<u8>) -> Option<int> {
    if fraction.len() == 0 {
        Some(0)
    } else if all_digits(fraction) {
        within(uint_text(nine_places(fraction)), 0, u32::MAX as int)
    } else {
        None
    }
}

/// The civil time and the offset of the zone that an RFC 3339 time gives: a day of the
/// calendar and a time of that day.
pub open spec fn rfc3339_civil(s: Seq<u8>) -> Option<(Civil, int)> {
    let i = first_index(s, 0x54);
    match (splitn3(s.take(i), 0x2d), zone_of(s.skip(i + 1))) {
        (Some((y, mo, d)), Some((time, offset))) if i < s.len() => {
            let (hms, fraction) = split_point(time);
            match splitn3(hms, 0x3a) {
                Some((h, mi, se)) => match (
                    within(int_text(y), i64::MIN as int, i64::MAX as int),
                    within(uint_text(mo), 0, u32::MAX as int),
                    within(uint_text(d), 0, u32::MAX as int),
                    within(uint_text(h), 0, u32::MAX as int),
                    within(uint_text(mi), 0, u32::MAX as int),
                    within(uint_text(se), 0, u32::MAX as int),
                    nanos_of(fraction),
                ) {
                    (Some(y), Some(mo), Some(d), Some(h), Some(mi), Some(se), Some(n)) => {
                        let c = Civil {
                            year: y as i64,
                            month: mo as u32,
                            day: d as u32,
                            hour: h as u32,
                            minute: mi as u32,
                            second: se as u32,
                            nanos: n as u32,
                        };
                        if c.valid() {
                            Some((c, offset))
                        } else {
                            None
                        }
                    },
                    _ => None,
                },
                None => None,
            }
        },
        _ => None,
    }
}

/// The instant that an RFC 3339 time gives, where it can be counted in 64 bits.
pub open spec fn rfc3339(s: Seq<u8>) -> Option<Instant> {
    match rfc3339_civil(s) {
        Some((c, offset)) if c.unix_fits() && i64::MIN <= c.unix() - offset <= i64::MAX => Some(
            Instant { secs: (c.unix() - offset) as i64, nanos: c.nanos },
        ),
        _ => None,
    }
}

fn find_last_sign(s: &[u8]) -> (r: Option<usize>)
    ensures
        match r {
            Some(i) => i == last_sign(s@) && i < s@.len() && (s@[i as int] == 0x2b || s@[i as int]
                == 0x2d),
            None => last_sign(s@) == -1,
        },
{
    let mut n: usize = s.len();
    assert(s@.take(n as int) =~= s@);
    while n > 0
        invariant
            n <= s@.len(),
            last_sign(s@) == last_sign(s@.take(n as int)),
        decreases n,
    {
        assert(s@.take(n as int).last() == s@[n - 1]);
        assert(s@.take(n as int).drop_last() =~= s@.take(n - 1));
        if s[n - 1] == 0x2b || s[n - 1] == 0x2d {
            return Some(n - 1);
        }
        n -= 1;
    }
    None
}

/// Splits a time of day from its zone; gives the offset in seconds.
pub fn split_zone(s: &[u8]) -> (r: Option<(&[u8], i64)>)
    ensures
        match zone_of(s@) {
            Some((time, offset)) => r matches Some(x) && x.0@ == time && x.1 == offset,
            None => r is None,
        },
{
    let n: usize = s.len();
    if n > 0 && s[n - 1] == 0x5a {
        let t = slice_subrange(s, 0, n - 1);
        assert(t@ =~= s@.drop_last());
        return Some((t, 0));
    }
    match find_last_sign(s) {
        None => Some((s, 0)),
        Some(i) => {
            let zone = slice_subrange(s, i + 1, n);
            assert(zone@ =~= s@.skip(i + 1));
            let k: usize = find_byte(zone, 0x3a);
            if k == zone.len() {
                return None;
            }
            let hours = slice_subrange(zone, 0, k);
            let minutes = slice_subrange(zone, k + 1, zone.len());
            assert(hours@ =~= zone@.take(k as int));
            assert(minutes@ =~= zone@.skip(k + 1));
            let h: i64 = match parse_i64(hours) {
                Some(h) => h,
                None => return None,
            };
            let m: i64 = match parse_i64(minutes) {
                Some(m) => m,
                None => return None,
            };
            if h < 0 || h > 23 || m < 0 || m > 59 {
                return None;
            }
            let seconds: i64 = h * 3600 + m * 60;
            let time = slice_subrange(s, 0, i);
            assert(time@ =~= s@.take(i as int));
            Some(
                (
                    time,
                    if s[i] == 0x2b {
                        seconds
                    } else {
                        -seconds
                    },
                ),
            )
        },
    }
}

fn parse_nanos(fraction: &[u8]) -> (r: Option<u32>)
    ensures
        match nanos_of(fraction@) {
            Some(n) => r matches Some(v) && v == n,
            None => r is None,
        },
{
    if fraction.len() == 0 {
        return Some(0);
    }
    if !is_digits(fraction) {
        return None;
    }
    let mut places: Vec<u8> = Vec::new();
    push_bytes(&mut places, fraction);
    push_repeated(&mut places, 0x30, 9);
    assert(places@ =~= fraction@ + repeated(0x30, 9));
    let nine = slice_subrange(places.as_slice(), 0, 9);
    assert(nine@ =~= nine_places(fraction@));
    parse_u32(nine)
}

/// Parses an RFC 3339 time (the `t` of a packet log, the date of a run).
pub fn parse_rfc3339_public(s: &str) -> (r: Option<Instant>)
    ensures
        r == rfc3339(utf8(s@)),
{
    let b = s.as_bytes();
    let i: usize = find_byte(b, 0x54);
    if i == b.len() {
        return None;
    }
    let date = slice_subrange(b, 0, i);
    let rest = slice_subrange(b, i + 1, b.len());
    assert(date@ =~= b@.take(i as int));
    assert(rest@ =~= b@.skip(i + 1));
    let (y, mo, d) = match exec_splitn3(date, 0x2d) {
        Some(x) => x,
        None => return None,
    };
    let (time, offset) = match split_zone(rest) {
        Some(x) => x,
        None => return None,
    };
    let k: usize = find_byte(time, 0x2e);
    let hms = slice_subrange(time, 0, k);
    assert(hms@ =~= split_point(time@).0);
    let fraction = if k < time.len() {
        slice_subrange(time, k + 1, time.len())
    } else {
        slice_subrange(time, k, k)
    };
    assert(fraction@ =~= split_point(time@).1);
    let (h, mi, se) = match exec_splitn3(hms, 0x3a) {
        Some(x) => x,
        None => return None,
    };
    match (
        parse_i64(y),
        parse_u32(mo),
        parse_u32(d),
        parse_u32(h),
        parse_u32(mi),
        parse_u32(se),
        parse_nanos(fraction),
    ) {
        (
            Some(year),
            Some(month),
            Some(day),
            Some(hour),
            Some(minute),
            Some(second),
            Some(nanos),
        ) => {
            let c = Civil { year, month, day, hour, minute, second, nanos };
            if !c.is_valid() {
                return None;
            }
            assert(rfc3339_civil(b@) == Some((c, offset as int)));
            if !c.fits_unix() {
                return None;
            }
            let inst = Instant::from_civil(c);
            match inst.secs.checked_sub(offset) {
                Some(secs) => Some(Instant { secs, nanos: inst.nanos }),
                None => None,
            }
        },
        _ => None,
    }
}

/// A text without the zeros at its end.
pub open spec fn without_zeros(s: Seq<u8>) -> Seq<u8>
    decreases s.len(),
{
    if s.len() > 0 && s.last() == 0x30 {
        without_zeros(s.drop_last())
    } else {
        s
    }
}

/// The fraction of a second with a point in front, without the zeros at its end;
/// nothing where it is 0.
pub open spec fn fraction_text(nanos: nat) -> Seq<u8> {
    if nanos == 0 {
        Seq::empty()
    } else {
        seq![0x2eu8] + without_zeros(zero_padded(nanos, 9))
    }
}

/// The date of a civil time: `YYYY-MM-DD`.
pub open spec fn date_text(c: Civil) -> Seq<u8> {
    year_text(c.year as int) + seq![0x2du8] + zero_padded(c.month as nat, 2) + seq![0x2du8]
        + zero_padded(c.day as nat, 2)
}

/// The time of day of a civil time: `HH:MM:SS`.
pub open spec fn clock_text(c: Civil) -> Seq<u8> {
    zero_padded(c.hour as nat, 2) + seq![0x3au8] + zero_padded(c.minute as nat, 2)
        + seq![0x3au8] + zero_padded(c.second as nat, 2)
}

/// A civil time without a zone.
pub open spec fn zoneless_text(c: Civil) -> Seq<u8> {
    date_text(c) + seq![0x54u8] + clock_text(c) + fraction_text(c.nanos as nat)
}

fn trim_zeros(s: &[u8]) -> (r: &[u8])
    ensures
        r@ == without_zeros(s@),
{
    let mut n: usize = s.len();
    assert(s@.take(n as int) =~= s@);
    while n > 0 && s[n - 1] == 0x30
        invariant
            n <= s@.len(),
            without_zeros(s@) == without_zeros(s@.take(n as int)),
        decreases n,
    {
        assert(s@.take(n as int).drop_last() =~= s@.take(n - 1));
        n -= 1;
    }
    let r = slice_subrange(s, 0, n);
    assert(r@ =~= s@.take(n as int));
    r
}

proof fn lemma_padded_digits(n: nat, w: int)
    ensures
        all_digits(zero_padded(n, w)),
{
    lemma_dec_value(n);
    assert forall|i: int| 0 <= i < zero_padded(n, w).len() implies is_digit(
        #[trigger] zero_padded(n, w)[i],
    ) by {
        let z = repeated(0x30, w - dec(n).len());
        if i >= z.len() {
            assert(is_digit(dec(n)[i - z.len()]));
        }
    }
}

proof fn lemma_without_zeros(s: Seq<u8>)
    ensures
        without_zeros(s).len() <= s.len(),
        s == without_zeros(s) + repeated(0x30, s.len() - without_zeros(s).len()),
        without_zeros(s) == s.take(without_zeros(s).len() as int),
    decreases s.len(),
{
    if s.len() > 0 && s.last() == 0x30 {
        let p = s.drop_last();
        lemma_without_zeros(p);
        let w = without_zeros(s);
        let t = w + repeated(0x30, s.len() - w.len());
        assert forall|i: int| 0 <= i < s.len() implies s[i] == t[i] by {
            if i < p.len() {
                assert(s[i] == p[i]);
                assert(p[i] == (w + repeated(0x30, p.len() - w.len()))[i]);
            }
        }
        assert(s =~= t);
    } else {
        assert(s =~= s + repeated(0x30, 0));
    }
}

/// An instant as a civil time without a zone: the times of obsj carry none.
pub fn zoneless_date_time(d: Instant) -> (r: String)
    requires
        d.day_fits(),
        d.nanos < 1_000_000_000,
    ensures
        utf8(r@) == zoneless_text(civil_of(d)),
{
    let c = d.civil();
    proof {
        lemma_instant_civil(c, civil_of(d));
        crate::rinex_write::lemma_instant_year(c);
    }
    let mut out: Vec<u8> = Vec::new();
    push_year(&mut out, c.year);
    out.push(0x2d);
    push_dec_padded(&mut out, c.month as u64, 2, 0x30);
    out.push(0x2d);
    push_dec_padded(&mut out, c.day as u64, 2, 0x30);
    assert(out@ =~= date_text(c));
    out.push(0x54);
    push_dec_padded(&mut out, c.hour as u64, 2, 0x30);
    out.push(0x3a);
    push_dec_padded(&mut out, c.minute as u64, 2, 0x30);
    out.push(0x3a);
    push_dec_padded(&mut out, c.second as u64, 2, 0x30);
    assert(out@ =~= date_text(c) + seq![0x54u8] + clock_text(c));
    if c.nanos != 0 {
        let mut digits: Vec<u8> = Vec::new();
        push_dec_padded(&mut digits, c.nanos as u64, 9, 0x30);
        assert(digits@ =~= zero_padded(c.nanos as nat, 9));
        out.push(0x2e);
        push_bytes(&mut out, trim_zeros(digits.as_slice()));
    }
    assert(out@ =~= zoneless_text(c));
    proof {
        lemma_zoneless_ascii(c);
    }
    ascii_text(out.as_slice())
}

proof fn lemma_zoneless_ascii(c: Civil)
    ensures
        is_ascii(zoneless_text(c)),
{
    lemma_padded_digits((-c.year) as nat, 3);
    lemma_padded_digits(c.year as nat, 4);
    lemma_padded_digits(c.month as nat, 2);
    lemma_padded_digits(c.day as nat, 2);
    lemma_padded_digits(c.hour as nat, 2);
    lemma_padded_digits(c.minute as nat, 2);
    lemma_padded_digits(c.second as nat, 2);
    lemma_padded_digits(c.nanos as nat, 9);
    lemma_without_zeros(zero_padded(c.nanos as nat, 9));
    assert(is_ascii(year_text(c.year as int)));
    assert(is_ascii(date_text(c)));
    assert(is_ascii(clock_text(c)));
    assert(is_ascii(fraction_text(c.nanos as nat)));
}

/// Reading an instant that was written as a civil time without a zone gives the
/// instant back, for years of four digits.
pub proof fn lemma_zoneless_round_trip(d: Instant, c: Civil)
    requires
        c.on_clock(),
        c.unix() == d.secs,
        c.nanos == d.nanos,
        d.nanos < 1_000_000_000,
        0 <= c.year <= 9999,
        c.unix_fits(),
    ensures
        rfc3339(zoneless_text(c)) == Some(d),
{
    let y = zero_padded(c.year as nat, 4);
    let mo = zero_padded(c.month as nat, 2);
    let da = zero_padded(c.day as nat, 2);
    let date = date_text(c);
    let time = clock_text(c) + fraction_text(c.nanos as nat);
    let l = zoneless_text(c);
    lemma_parts(c);
    assert(forall|i: int| 0 <= i < 10 ==> #[trigger] date[i] != 0x54);
    assert forall|i: int| 0 <= i < 10 implies #[trigger] l[i] != 0x54 by {
        assert(l[i] == date[i]);
    }
    assert(l[10] == 0x54);
    lemma_first_index_is(l, 0x54, 10);
    assert(l.take(10) =~= date);
    assert(l.skip(11) =~= time);
    lemma_date_split(c);
    lemma_time_split(c);
}

proof fn lemma_parts(c: Civil)
    requires
        c.on_clock(),
        0 <= c.year <= 9999,
    ensures
        zero_padded(c.year as nat, 4).len() == 4,
        uint_text(zero_padded(c.year as nat, 4)) == Some(c.year as int),
        int_text(zero_padded(c.year as nat, 4)) == Some(c.year as int),
        zero_padded(c.month as nat, 2).len() == 2,
        uint_text(zero_padded(c.month as nat, 2)) == Some(c.month as int),
        zero_padded(c.day as nat, 2).len() == 2,
        uint_text(zero_padded(c.day as nat, 2)) == Some(c.day as int),
        zero_padded(c.hour as nat, 2).len() == 2,
        uint_text(zero_padded(c.hour as nat, 2)) == Some(c.hour as int),
        zero_padded(c.minute as nat, 2).len() == 2,
        uint_text(zero_padded(c.minute as nat, 2)) == Some(c.minute as int),
        zero_padded(c.second as nat, 2).len() == 2,
        uint_text(zero_padded(c.second as nat, 2)) == Some(c.second as int),
        date_text(c).len() == 10,
        clock_text(c).len() == 8,
        forall|i: int|
            0 <= i < 10 ==> #[trigger] date_text(c)[i] == 0x2d || is_digit(date_text(c)[i]),
        forall|i: int|
            0 <= i < 8 ==> #[trigger] clock_text(c)[i] == 0x3a || is_digit(clock_text(c)[i]),
{
    lemma_dec_len(c.year as nat);
    lemma_dec_len(c.month as nat);
    lemma_dec_len(c.day as nat);
    lemma_dec_len(c.hour as nat);
    lemma_dec_len(c.minute as nat);
    lemma_dec_len(c.second as nat);
    lemma_zero_padded(c.year as nat, 4);
    lemma_zero_padded(c.month as nat, 2);
    lemma_zero_padded(c.day as nat, 2);
    lemma_zero_padded(c.hour as nat, 2);
    lemma_zero_padded(c.minute as nat, 2);
    lemma_zero_padded(c.second as nat, 2);
    assert(is_digit(zero_padded(c.year as nat, 4)[0]));
}

proof fn lemma_date_split(c: Civil)
    requires
        c.on_clock(),
        0 <= c.year <= 9999,
    ensures
        splitn3(date_text(c), 0x2d) == Some(
            (
                zero_padded(c.year as nat, 4),
                zero_padded(c.month as nat, 2),
                zero_padded(c.day as nat, 2),
            ),
        ),
{
    let y = zero_padded(c.year as nat, 4);
    let mo = zero_padded(c.month as nat, 2);
    let da = zero_padded(c.day as nat, 2);
    let date = date_text(c);
    lemma_parts(c);
    lemma_padded_digits(c.year as nat, 4);
    lemma_padded_digits(c.month as nat, 2);
    assert forall|j: int| 0 <= j < 4 implies date[j] != 0x2d by {
        assert(date[j] == y[j]);
    }
    lemma_first_index_is(date, 0x2d, 4);
    let rest = date.skip(5);
    assert forall|j: int| 0 <= j < 2 implies rest[j] != 0x2d by {
        assert(rest[j] == mo[j]);
    }
    assert(rest[2] == 0x2d);
    lemma_first_index_is(rest, 0x2d, 2);
    assert(date.take(4) =~= y);
    assert(rest.take(2) =~= mo);
    assert(rest.skip(3) =~= da);
}

proof fn lemma_no_sign(s: Seq<u8>)
    requires
        forall|i: int| 0 <= i < s.len() ==> #[trigger] s[i] != 0x2b && s[i] != 0x2d,
    ensures
        last_sign(s) == -1,
    decreases s.len(),
{
    if s.len() > 0 {
        lemma_no_sign(s.drop_last());
    }
}

proof fn lemma_time_split(c: Civil)
    requires
        c.on_clock(),
        0 <= c.year <= 9999,
        c.nanos < 1_000_000_000,
    ensures
        ({
            let time = clock_text(c) + fraction_text(c.nanos as nat);
            &&& zone_of(time) == Some((time, 0int))
            &&& split_point(time).0 == clock_text(c)
            &&& nanos_of(split_point(time).1) == Some(c.nanos as int)
            &&& splitn3(clock_text(c), 0x3a) == Some(
                (
                    zero_padded(c.hour as nat, 2),
                    zero_padded(c.minute as nat, 2),
                    zero_padded(c.second as nat, 2),
                ),
            )
        }),
{
    let clock = clock_text(c);
    let frac = fraction_text(c.nanos as nat);
    let time = clock + frac;
    let p = zero_padded(c.nanos as nat, 9);
    lemma_parts(c);
    lemma_padded_digits(c.nanos as nat, 9);
    lemma_dec_len(c.nanos as nat);
    lemma_zero_padded(c.nanos as nat, 9);
    lemma_without_zeros(p);
    assert forall|i: int| 0 <= i < time.len() implies #[trigger] time[i] != 0x2b && time[i] != 0x2d
        && time[i] != 0x5a by {
        if i < 8 {
            assert(time[i] == clock[i]);
        } else {
            assert(time[i] == frac[i - 8]);
            if i > 8 {
                assert(frac[i - 8] == p[i - 9]);
            }
        }
    }
    lemma_no_sign(time);
    assert forall|j: int| 0 <= j < 8 implies time[j] != 0x2e by {
        assert(time[j] == clock[j]);
    }
    if c.nanos != 0 {
        let w = without_zeros(p);
        assert(time[8] == 0x2e);
        lemma_first_index_is(time, 0x2e, 8);
        assert(time.take(8) =~= clock);
        assert(time.skip(9) =~= w);
        assert(w.len() > 0) by {
            if w.len() == 0 {
                assert(p =~= repeated(0x30, 9));
                crate::text::lemma_leading_zeros(Seq::empty(), 9);
                assert(repeated(0x30, 9) + Seq::<u8>::empty() =~= repeated(0x30, 9));
            }
        }
        assert(nine_places(w) =~= p);
    } else {
        assert(time =~= clock);
        lemma_first_index_is(time, 0x2e, 8);
    }
    let h = zero_padded(c.hour as nat, 2);
    let mi = zero_padded(c.minute as nat, 2);
    let se = zero_padded(c.second as nat, 2);
    lemma_padded_digits(c.hour as nat, 2);
    lemma_padded_digits(c.minute as nat, 2);
    assert forall|j: int| 0 <= j < 2 implies clock[j] != 0x3a by {
        assert(clock[j] == h[j]);
    }
    assert(clock[2] == 0x3a);
    lemma_first_index_is(clock, 0x3a, 2);
    let rest = clock.skip(3);
    assert forall|j: int| 0 <= j < 2 implies rest[j] != 0x3a by {
        assert(rest[j] == mi[j]);
    }
    assert(rest[2] == 0x3a);
    lemma_first_index_is(rest, 0x3a, 2);
    assert(clock.take(2) =~= h);
    assert(rest.take(2) =~= mi);
    assert(rest.skip(3) =~= se);
}

// ---- records ----

/// What one JSON line holds, as far as it is known: an observation record carries
/// `t`, a metadata record does not. Of the legacy keys only their presence
/// counts.
pub struct RawRecord<F, G> {
    pub t: Option<GpsTime>,
    pub sat: Option<SatId>,
    pub sig: Option<SigId>,
    pub frq: Option<i8>,
    pub pr: Option<F>,
    pub cp: Option<F>,
    pub dop: Option<F>,
    pub cn0: Option<G>,
    pub arc: Option<u32>,
    pub hc: Option<bool>,
    pub bt: Option<bool>,
    pub version: Option<String>,
    pub run: Option<MetadataRun>,
    pub comment: Option<Vec<String>>,
    pub marker: Option<Marker>,
    pub observer: Option<String>,
    pub agency: Option<String>,
    pub receiver: Option<Receiver>,
    pub antenna: Option<Antenna>,
    pub approx_position: Option<[F; 3]>,
    pub antenna_delta: Option<[F; 3]>,
    pub interval: Option<F>,
    pub leap_seconds: Option<i16>,
    pub ssi: bool,
    pub lli: bool,
    pub ll: bool,
}

/// A record of an obsj stream.
pub enum Record<F, G> {
    Observation(SignalObservation<F, G>),
    Metadata(Metadata<F>),
}

/// A value, or what stands for none.
pub open spec fn or_else<T>(v: Option<T>, other: T) -> T {
    match v {
        Some(x) => x,
        None => other,
    }
}

/// The text of an optional string, empty for none.
pub open spec fn text_of_option(s: Option<String>) -> Seq<char> {
    match s {
        Some(x) => x@,
        None => Seq::empty(),
    }
}

/// The contents of a value, or what stands for none.
pub open spec fn view_or<T: View>(v: Option<T>, other: T::V) -> T::V {
    match v {
        Some(x) => x@,
        None => other,
    }
}

/// What is wrong with an observation record, if anything is.
pub open spec fn record_error<F, G>(r: RawRecord<F, G>) -> Option<Seq<char>> {
    if r.ssi {
        Some("obsj field \"ssi\" is not supported"@)
    } else if r.lli {
        Some("obsj field \"lli\" is not supported"@)
    } else if r.ll {
        Some("obsj field \"ll\" is not supported; use \"arc\""@)
    } else if r.sat is None {
        Some("obsj observation record missing \"sat\""@)
    } else if r.sig is None {
        Some("obsj observation record missing \"sig\""@)
    } else {
        None
    }
}

/// The observation of a record.
pub open spec fn record_observation<F, G>(r: RawRecord<F, G>) -> SignalObservation<F, G> {
    SignalObservation {
        t: r.t->0,
        sat: r.sat->0,
        sig: r.sig->0,
        v: SignalValues {
            frq: r.frq,
            pr: r.pr,
            cp: r.cp,
            dop: r.dop,
            cn0: r.cn0,
            arc: or_else(r.arc, 0),
            hc: or_else(r.hc, false),
            bt: or_else(r.bt, false),
            ll: false,
        },
    }
}

/// The metadata of a record.
pub open spec fn record_metadata<F, G>(r: RawRecord<F, G>) -> MetadataView<F> {
    let none = no_metadata::<F>();
    MetadataView {
        version: text_of_option(r.version),
        run: view_or(r.run, none.run),
        comment: match r.comment {
            Some(v) => texts(v@),
            None => Seq::empty(),
        },
        marker: view_or(r.marker, none.marker),
        observer: text_of_option(r.observer),
        agency: text_of_option(r.agency),
        receiver: view_or(r.receiver, none.receiver),
        antenna: view_or(r.antenna, none.antenna),
        approx_position: r.approx_position,
        antenna_delta: r.antenna_delta,
        interval: r.interval,
        leap_seconds: r.leap_seconds,
    }
}

/// Makes a record of what a line holds.
pub fn parse_record<F, G>(r: RawRecord<F, G>) -> (out: std::result::Result<Record<F, G>, String>)
    ensures
        r.t is Some ==> (match record_error(r) {
            Some(e) => out matches Err(m) && m@ == e,
            None => out matches Ok(Record::Observation(o)) && o == record_observation(r),
        }),
        r.t is None ==> (out matches Ok(Record::Metadata(m)) && m@ == record_metadata(r)),
{
    match r.t {
        Some(t) => {
            if r.ssi {
                return Err("obsj field \"ssi\" is not supported".to_owned());
            }
            if r.lli {
                return Err("obsj field \"lli\" is not supported".to_owned());
            }
            if r.ll {
                return Err("obsj field \"ll\" is not supported; use \"arc\"".to_owned());
            }
            let sat = match r.sat {
                Some(x) => x,
                None => return Err("obsj observation record missing \"sat\"".to_owned()),
            };
            let sig = match r.sig {
                Some(x) => x,
                None => return Err("obsj observation record missing \"sig\"".to_owned()),
            };
            let arc: u32 = match r.arc {
                Some(x) => x,
                None => 0,
            };
            let hc: bool = match r.hc {
                Some(x) => x,
                None => false,
            };
            let bt: bool = match r.bt {
                Some(x) => x,
                None => false,
            };
            let v = SignalValues {
                frq: r.frq,
                pr: r.pr,
                cp: r.cp,
                dop: r.dop,
                cn0: r.cn0,
                arc,
                hc,
                bt,
                ll: false,
            };
            Ok(Record::Observation(SignalObservation { t, sat, sig, v }))
        },
        None => {
            let mut m: Metadata<F> = Metadata::default();
            if let Some(x) = r.version {
                m.version = x;
            }
            if let Some(x) = r.run {
                m.run = x;
            }
            if let Some(x) = r.comment {
                m.comment = x;
            }
            if let Some(x) = r.marker {
                m.marker = x;
            }
            if let Some(x) = r.observer {
                m.observer = x;
            }
            if let Some(x) = r.agency {
                m.agency = x;
            }
            if let Some(x) = r.receiver {
                m.receiver = x;
            }
            if let Some(x) = r.antenna {
                m.antenna = x;
            }
            m.approx_position = r.approx_position;
            m.antenna_delta = r.antenna_delta;
            m.interval = r.interval;
            m.leap_seconds = r.leap_seconds;
            proof {
                assert(m@ =~~= record_metadata(r));
            }
            Ok(Record::Metadata(m))
        },
    }
}

/// A message with the number of its line in front.
pub open spec fn line_message(line: nat, e: Seq<char>) -> Seq<char> {
    "obsj line "@ + number_text(line) + ": "@ + e
}

/// Whether passing a record on to a sink gives a result.
pub open spec fn passed_on<F, G, S: Sink<F, G>>(
    pre: S,
    r: RawRecord<F, G>,
    line: nat,
    post: S,
    out: std::result::Result<(), String>,
) -> bool {
    if r.t is Some {
        match record_error(r) {
            Some(e) => post == pre && (out matches Err(m) && m@ == line_message(line, e)),
            None => exists|res: Result<()>|
                {
                    &&& #[trigger] S::observation_step(pre, record_observation(r), post, res)
                    &&& sink_answer(res, out)
                },
        }
    } else {
        exists|res: Result<()>|
            {
                &&& #[trigger] S::metadata_step(pre, record_metadata(r), post, res)
                &&& sink_answer(res, out)
            }
    }
}

/// Whether a result is that of a sink, its error as a message.
pub open spec fn sink_answer(res: Result<()>, out: std::result::Result<(), String>) -> bool {
    match res {
        Ok(_) => out is Ok,
        Err(e) => out matches Err(m) && m@ == e.message(),
    }
}

/// Passes the record of a line of an obsj stream on to a sink.
pub fn stream_record<F, G, S: Sink<F, G>>(r: RawRecord<F, G>, line: u64, sink: &mut S) -> (out:
    std::result::Result<(), String>)
    ensures
        passed_on(*old(sink), r, line as nat, *final(sink), out),
{
    match parse_record(r) {
        Err(e) => {
            let prefix = "obsj line ".to_owned().concat(number_string(line).as_str());
            Err(prefix.concat(": ").concat(e.as_str()))
        },
        Ok(Record::Observation(o)) => match sink.observation(&o) {
            Ok(_) => Ok(()),
            Err(e) => Err(e.to_string()),
        },
        Ok(Record::Metadata(m)) => match sink.metadata(&m) {
            Ok(_) => Ok(()),
            Err(e) => Err(e.to_string()),
        },
    }
}

/// The metadata that records give, merged in their order.
pub open spec fn records_metadata<F, G>(rs: Seq<(u64, RawRecord<F, G>)>) -> MetadataView<F>
    decreases rs.len(),
{
    if rs.len() == 0 {
        no_metadata()
    } else {
        let before = records_metadata(rs.drop_last());
        if rs.last().1.t is Some {
            before
        } else {
            before.merged(record_metadata(rs.last().1))
        }
    }
}

/// The observations that records give, in their order.
pub open spec fn records_observations<F, G>(rs: Seq<(u64, RawRecord<F, G>)>) -> Seq<
    SignalObservation<F, G>,
>
    decreases rs.len(),
{
    if rs.len() == 0 {
        Seq::empty()
    } else {
        let before = records_observations(rs.drop_last());
        if rs.last().1.t is Some {
            before.push(record_observation(rs.last().1))
        } else {
            before
        }
    }
}

/// Whether a record is refused.
pub open spec fn is_refused<F, G>(r: RawRecord<F, G>) -> bool {
    r.t is Some && record_error(r) is Some
}

/// Whether none of the records is refused.
pub open spec fn none_refused<F, G>(rs: Seq<(u64, RawRecord<F, G>)>) -> bool {
    forall|i: int| 0 <= i < rs.len() ==> !is_refused((#[trigger] rs[i]).1)
}

/// Whether record `k` is the first that is refused, and a message names its line and
/// the reason.
pub open spec fn names_refused<F, G>(rs: Seq<(u64, RawRecord<F, G>)>, k: int, m: Seq<char>) -> bool {
    &&& none_refused(rs.take(k))
    &&& is_refused(rs[k].1)
    &&& m == line_message(rs[k].0 as nat, record_error(rs[k].1)->0)
}

/// Whether a message tells of the first record that is refused.
pub open spec fn tells_refused<F, G>(rs: Seq<(u64, RawRecord<F, G>)>, m: Seq<char>) -> bool {
    exists|k: int| 0 <= k < rs.len() && #[trigger] names_refused(rs, k, m)
}

/// Reads records, each with the number of its line: merges their metadata and
/// collects their observations.
pub fn read_obsj<F: Copy, G: Copy>(rs: Vec<(u64, RawRecord<F, G>)>) -> (out: std::result::Result<
    (Metadata<F>, Vec<SignalObservation<F, G>>),
    String,
>)
    ensures
        out is Ok <==> none_refused(rs@),
        out matches Ok((m, obs)) ==> m@ == records_metadata(rs@) && obs@ == records_observations(
            rs@,
        ),
        out matches Err(e) ==> tells_refused(rs@, e@),
{
    let ghost all = rs@;
    let mut c: Collector<F, G> = Collector::new();
    assert(all.take(0) =~= Seq::empty());
    for r in it: rs
        invariant
            all == rs@,
            it.seq() == all,
            none_refused(all.take(it.index())),
            c.meta@ == records_metadata(all.take(it.index())),
            c.obs@ == records_observations(all.take(it.index())),
    {
        let ghost at = it.index();
        let ghost longer = all.take(at + 1);
        proof {
            assert(longer.drop_last() =~= all.take(at));
            assert(longer.last() == r);
        }
        let (line, record) = r;
        let passed = stream_record(record, line, &mut c);
        match passed {
            Ok(_) => {
                proof {
                    assert(!is_refused(record));
                    assert forall|i: int| 0 <= i < longer.len() implies !is_refused(
                        (#[trigger] longer[i]).1,
                    ) by {
                        if i < at {
                            assert(all.take(at)[i] == longer[i]);
                        }
                    }
                }
            },
            Err(m) => {
                proof {
                    assert(names_refused(rs@, at, m@));
                    assert(tells_refused(rs@, m@));
                }
                return Err(m);
            },
        }
    }
    assert(all.take(all.len() as int) =~= all);
    Ok((c.meta, c.obs))
}

} // verus!
