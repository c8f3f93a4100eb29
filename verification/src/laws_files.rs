//! Where the fields of a RAWX message stand, what a header file tells, what a line of
//! differences says, and on which carriers signals are sent.

use crate::calendar::lemma_civil_days;
use crate::cli::{
    header_date_to_instant, read_header_file, HeaderComment, HeaderDate, HeaderFile,
};
use crate::diff::{DiffRecord, SignalDiff};
use crate::diffobs::diff_line;
use crate::freq::signal_frequency_hz;
use crate::laws_cli::{lemma_side_text, listed, members};
use crate::laws_rinex::{is_tick, lemma_is_tick};
use crate::laws_time::{is_instant, is_label, lemma_is_instant, lemma_label};
use crate::metadata::Metadata;
use crate::obs::{civil_label, id_text, lemma_civil_unique, Civil, GpsTime, Instant, SigId};
use crate::rinex_write::{civil_at, lemma_civil_at};
use crate::text::utf8;
use crate::ubx_frame::{little_endian, parse_rawx, raw_meas, rawx_payload, RawMeas, RawRawx};
use vstd::prelude::*;

verus! {

// ---- RAWX ----

/// The number in `n` bytes of a frame, the lowest first.
pub open spec fn low_first(f: Seq<u8>, pos: int, n: int) -> int
    decreases n,
{
    if n <= 0 {
        0
    } else {
        f[pos] + 256 * low_first(f, pos + 1, n - 1)
    }
}

/// Whether a measurement is the one that stands in a frame from byte `at` on.
pub open spec fn stands_at(f: Seq<u8>, at: int, m: RawMeas) -> bool {
    &&& m.pr_mes == low_first(f, at, 8)
    &&& m.cp_mes == low_first(f, at + 8, 8)
    &&& m.do_mes == low_first(f, at + 16, 4)
    &&& m.gnss_id == f[at + 20]
    &&& m.sv_id == f[at + 21]
    &&& m.sig_id == f[at + 22]
    &&& m.freq_id == f[at + 23]
    &&& m.lock_time == low_first(f, at + 24, 2)
    &&& m.cno == f[at + 26]
    &&& m.cp_stdev == f[at + 28]
    &&& m.trk_stat == f[at + 30]
}

proof fn lemma_low_first(f: Seq<u8>, a: int, b: int)
    requires
        0 <= a <= b <= f.len(),
    ensures
        little_endian(f.subrange(a, b)) == low_first(f, a, b - a),
    decreases b - a,
{
    if a < b {
        lemma_low_first(f, a + 1, b);
        assert(f.subrange(a, b).skip(1) =~= f.subrange(a + 1, b));
    }
}

proof fn lemma_stands_at(f: Seq<u8>, at: int)
    requires
        0 <= at,
        at + 32 <= f.len(),
    ensures
        stands_at(f, at, raw_meas(f.subrange(at, at + 32))),
{
    let m = f.subrange(at, at + 32);
    assert(m.subrange(0, 8) =~= f.subrange(at, at + 8));
    assert(m.subrange(8, 16) =~= f.subrange(at + 8, at + 16));
    assert(m.subrange(16, 20) =~= f.subrange(at + 16, at + 20));
    assert(m.subrange(24, 26) =~= f.subrange(at + 24, at + 26));
    lemma_low_first(f, at, at + 8);
    lemma_low_first(f, at + 8, at + 16);
    lemma_low_first(f, at + 16, at + 20);
    lemma_low_first(f, at + 24, at + 26);
    reveal_with_fuel(low_first, 9);
}

/// A RAWX message has its time and week at the start of the payload, which begins at byte 6,
/// and one measurement of 32 bytes behind the other from byte 22 on.
pub proof fn lemma_rawx_layout(frame: &[u8], r: Option<RawRawx>)
    requires
        call_ensures(parse_rawx, (frame,), r),
    ensures
        frame@.len() >= 22 && frame@[19] != 1 ==> r is None,
        r matches Some(m) ==> {
            let f = frame@;
            &&& m.rcv_tow == low_first(f, 6, 8)
            &&& m.week == f[14] + 256 * f[15]
            &&& 16 + 32 * m.meas@.len() == f[4] + 256 * f[5]
            &&& forall|i: int|
                0 <= i < m.meas@.len() ==> stands_at(f, 22 + 32 * i, #[trigger] m.meas@[i])
        },
{
    let f = frame@;
    if let Some(m) = r {
        let p = rawx_payload(f)->0;
        assert(p.subrange(0, 8) =~= f.subrange(6, 14));
        assert(p.subrange(8, 10) =~= f.subrange(14, 16));
        lemma_low_first(f, 6, 14);
        lemma_low_first(f, 14, 16);
        reveal_with_fuel(low_first, 3);
        assert forall|i: int| 0 <= i < m.meas@.len() implies stands_at(
            f,
            22 + 32 * i,
            #[trigger] m.meas@[i],
        ) by {
            assert(p.subrange(16 + i * 32, 16 + (i + 1) * 32) =~= f.subrange(
                22 + 32 * i,
                22 + 32 * i + 32,
            ));
            lemma_stands_at(f, 22 + 32 * i);
        }
    }
}

// ---- header files ----

/// Whether a text is the one that was given, or empty where none was.
pub open spec fn is_given(t: String, s: Option<String>) -> bool {
    match s {
        Some(x) => t@ == x@,
        None => t@.len() == 0,
    }
}

/// A header file gives each of its entries to the fact of the same name.
pub proof fn lemma_header_file<F>(h: HeaderFile<F>, r: Metadata<F>)
    requires
        call_ensures(read_header_file::<F>, (h,), r),
    ensures
        is_given(r.version, h.version),
        is_given(r.observer, h.observer),
        is_given(r.agency, h.agency),
        h.run matches Some(run) ==> is_given(r.run.program, run.program) && is_given(
            r.run.by,
            run.by,
        ),
        h.run is None ==> r.run.program@.len() == 0 && r.run.by@.len() == 0 && r.run.date is None,
        h.marker matches Some(m) ==> is_given(r.marker.name, m.0) && is_given(r.marker.number, m.1)
            && is_given(r.marker.type_, m.2),
        h.marker is None ==> r.marker.name@.len() == 0 && r.marker.number@.len() == 0
            && r.marker.type_@.len() == 0,
        h.receiver matches Some(m) ==> is_given(r.receiver.number, m.0) && is_given(
            r.receiver.type_,
            m.1,
        ) && is_given(r.receiver.version, m.2),
        h.receiver is None ==> r.receiver.number@.len() == 0 && r.receiver.type_@.len() == 0
            && r.receiver.version@.len() == 0,
        h.antenna matches Some(m) ==> is_given(r.antenna.number, m.0) && is_given(
            r.antenna.type_,
            m.1,
        ),
        h.antenna is None ==> r.antenna.number@.len() == 0 && r.antenna.type_@.len() == 0,
        h.comment is None ==> r.comment@.len() == 0,
        h.comment matches Some(HeaderComment::Many(v)) ==> r.comment@.len() == v@.len() && forall|
            i: int,
        |
            0 <= i < v@.len() ==> (#[trigger] r.comment@[i])@ == v@[i]@,
        r.approx_position == h.approx_position,
        r.antenna_delta == h.antenna_delta,
        r.interval == h.interval,
        r.leap_seconds == h.leap_seconds,
{
    assert(r@.comment.len() == r.comment@.len());
    if let Some(HeaderComment::Many(v)) = h.comment {
        assert forall|i: int| 0 <= i < v@.len() implies (#[trigger] r.comment@[i])@ == v@[i]@ by {
            assert(r@.comment[i] == r.comment@[i]@);
        }
    }
}

/// Whether a civil time is that of a header file's date, at midnight where it tells no time.
pub open spec fn is_civil_of(c: Civil, d: HeaderDate) -> bool {
    &&& d.date matches Some((y, m, k)) && c.year == y && c.month == m && c.day == k
    &&& match d.time {
        Some((h, m, s, n)) => c.hour == h && c.minute == m && c.second == s && c.nanos == n,
        None => c.hour == 0 && c.minute == 0 && c.second == 0 && c.nanos == 0,
    }
}

/// A header file's date is the instant of the civil time that it tells.
pub proof fn lemma_header_date(d: HeaderDate, c: Civil, t: Instant, r: Option<Instant>)
    requires
        is_civil_of(c, d),
        is_instant(t, c),
        call_ensures(header_date_to_instant, (Some(d),), r),
    ensures
        r == Some(t),
{
    lemma_is_instant(t, c);
}

/// Without a date there is no instant.
pub proof fn lemma_no_header_date(d: Option<HeaderDate>, r: Option<Instant>)
    requires
        call_ensures(header_date_to_instant, (d,), r),
        d is None || d->0.date is None,
    ensures
        r is None,
{
}

// ---- differences ----

/// A side of a difference in its line, behind its name.
pub open spec fn side_of(name: Seq<char>, d: Option<SignalDiff<&[u8], &[u8]>>) -> Seq<u8> {
    match d {
        Some(x) => utf8(name) + (seq![0x7bu8] + listed(members(x)) + seq![0x7du8]),
        None => Seq::empty(),
    }
}

/// Whether a line of differences names the time, the satellite and the signal, and then shows
/// side `a` and side `b`, each where it is there.
pub open spec fn is_diff_line(r: Seq<u8>, d: DiffRecord<&[u8], &[u8]>, label: Seq<u8>) -> bool {
    r == utf8("{\"t\":\""@) + label + utf8("\",\"sat\":\""@) + id_text(d.sat.0@) + utf8(
        "\",\"sig\":\""@,
    ) + id_text(d.sig.0@) + seq![0x22u8] + side_of(",\"a\":"@, d.a) + side_of(",\"b\":"@, d.b)
        + seq![0x7du8, 0x0au8]
}

proof fn lemma_label_at(t: GpsTime, c: Civil)
    requires
        t.in_range(),
        is_tick(t, c),
    ensures
        civil_at(t) == c,
        is_label(civil_label(c), c),
{
    lemma_is_tick(t, c);
    lemma_civil_at(t);
    lemma_civil_unique(c, civil_at(t));
    lemma_civil_days(c.year as int, c.month as int, c.day as int);
    lemma_label(c);
}

/// A difference is written as a line with the label of its time and its two sides.
pub proof fn lemma_diff_line(d: &DiffRecord<&[u8], &[u8]>, c: Civil, r: Vec<u8>)
    requires
        d.t.in_range(),
        is_tick(d.t, c),
        call_ensures(diff_line, (d,), r),
    ensures
        exists|label: Seq<u8>| #[trigger] is_label(label, c) && is_diff_line(r@, *d, label),
{
    lemma_label_at(d.t, c);
    if let Some(s) = d.a {
        lemma_side_text(s);
    }
    if let Some(s) = d.b {
        lemma_side_text(s);
    }
    assert(is_diff_line(r@, *d, civil_label(c)));
}

// ---- carriers ----

/// Signals are sent on multiples of 10.23 MHz, GLONASS on channels 562.5 kHz or 437.5 kHz apart:
/// band 1 on 154 (BeiDou band 2 on 152.6), band 2 on 120, band 5 on 115, band 6 on 125
/// (BeiDou 124), band 7 on 118, band 8 on 116.5 and band 9 on 243.6.
pub proof fn lemma_carriers(sys: u8, sig: SigId, frq: Option<i8>, r: Option<i64>)
    requires
        call_ensures(signal_frequency_hz, (sys, sig, frq), r),
        r is Some,
    ensures
        ({
            let band = sig.0@[0];
            let tenths = 10 * r->0;
            &&& sys == 0x52 && band == 0x31 ==> frq is Some && r->0 == 1_602_000_000 + 562_500
                * (frq->0 as int)
            &&& sys == 0x52 && band == 0x32 ==> frq is Some && r->0 == 1_246_000_000 + 437_500
                * (frq->0 as int)
            &&& sys != 0x52 && band == 0x31 ==> tenths == 1540 * 10_230_000
            &&& sys != 0x52 && sys != 0x43 && band == 0x32 ==> tenths == 1200 * 10_230_000
            &&& sys == 0x43 && band == 0x32 ==> tenths == 1526 * 10_230_000
            &&& sys != 0x52 && band == 0x35 ==> tenths == 1150 * 10_230_000
            &&& sys != 0x43 && band == 0x36 ==> tenths == 1250 * 10_230_000
            &&& sys == 0x43 && band == 0x36 ==> tenths == 1240 * 10_230_000
            &&& band == 0x37 ==> tenths == 1180 * 10_230_000
            &&& band == 0x38 ==> tenths == 1165 * 10_230_000
            &&& band == 0x39 ==> tenths == 2436 * 10_230_000
        }),
{
}

/// Bands whose carrier is known, system by system.
pub proof fn lemma_known_carriers(sys: u8, sig: SigId, frq: Option<i8>, r: Option<i64>)
    requires
        call_ensures(signal_frequency_hz, (sys, sig, frq), r),
    ensures
        r is Some <==> ({
            let b = sig.0@[0] - 0x30;
            ||| sys == 0x47 && (b == 1 || b == 2 || b == 5)
            ||| sys == 0x52 && (b == 1 || b == 2) && frq is Some
            ||| sys == 0x45 && (b == 1 || b == 5 || b == 6 || b == 7 || b == 8)
            ||| sys == 0x53 && (b == 1 || b == 5)
            ||| sys == 0x4a && (b == 1 || b == 2 || b == 5 || b == 6)
            ||| sys == 0x43 && (b == 1 || b == 2 || b == 5 || b == 6 || b == 7)
            ||| sys == 0x49 && (b == 5 || b == 9)
        }),
{
}

} // verus!
