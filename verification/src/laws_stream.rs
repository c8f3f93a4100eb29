//! What the stages of a stream do to observations, and the intervals of time that constrain
//! them.

use crate::arc::{accumulated, arc_after, ArcToLl, LossOfLockSink};
use crate::error::{Error, Result};
use crate::laws_rinex::{four_digits, two_digits};
use crate::laws_time::is_instant;
use crate::obs::{Civil, GpsTime, Instant, SignalKey, SignalObservation};
use crate::packetlog::hex_decode;
use crate::rinex_read::accumulate_arc;
use crate::rtcm::TimeInterval;
use crate::sink::{filtered, on_grid, DecimationSink, Filtered, RequireCpFilter, Sink};
use crate::text::utf8;
use crate::week::{
    automatic_week_constraint, date_week_constraint, packet_log_week_constraint, parse_yyyymmdd,
    recent_week_constraint, WeekConstraint,
};
use vstd::prelude::*;

verus! {

// ---- decimation ----

/// Whether a time lies at a multiple of an interval, when it is rounded to a tenth of a
/// second.
pub open spec fn at_multiple(t: int, interval: int, tenth: int) -> bool {
    &&& tenth * 1_000_000 - 500_000 <= t < tenth * 1_000_000 + 500_000
    &&& (tenth * 1_000_000) % interval == 0
}

/// Decimation keeps the times that lie at a multiple of the interval.
pub proof fn lemma_grid(s: &DecimationSink<()>, t: GpsTime, tenth: int, r: bool)
    requires
        s.interval > 0,
        t.0 >= 0,
        tenth * 1_000_000 - 500_000 <= t.0 < tenth * 1_000_000 + 500_000,
        call_ensures(DecimationSink::<()>::on_grid, (s, t), r),
    ensures
        r <==> at_multiple(t.0 as int, s.interval as int, tenth),
{
    assert((t.0 + 500_000) as int / 1_000_000 == tenth);
}

/// A decimating sink hands on the observations at a multiple of its interval, unchanged, and
/// no others.
pub proof fn lemma_decimated<F, G, S: Sink<F, G>>(
    pre: DecimationSink<S>,
    o: SignalObservation<F, G>,
    post: DecimationSink<S>,
    r: Result<()>,
    tenth: int,
)
    requires
        pre.interval > 0,
        o.t.0 >= 0,
        tenth * 1_000_000 - 500_000 <= o.t.0 < tenth * 1_000_000 + 500_000,
        <DecimationSink<S> as Sink<F, G>>::observation_step(pre, o, post, r),
    ensures
        at_multiple(o.t.0 as int, pre.interval as int, tenth) ==> S::observation_step(
            pre.sink,
            o,
            post.sink,
            r,
        ),
        !at_multiple(o.t.0 as int, pre.interval as int, tenth) ==> post.sink == pre.sink && r == Ok::<
            (),
            Error,
        >(()),
        post.interval == pre.interval,
{
    assert((o.t.0 + 500_000) as int / 1_000_000 == tenth);
    assert(on_grid(o.t, pre.interval) <==> at_multiple(o.t.0 as int, pre.interval as int, tenth));
}

/// The filter for carrier phase hands on the observations that have one, unchanged, and no
/// others.
pub proof fn lemma_phase_required<F, G, S: Sink<F, G>>(
    pre: RequireCpFilter<S>,
    o: SignalObservation<F, G>,
    post: RequireCpFilter<S>,
    r: Result<()>,
)
    requires
        <RequireCpFilter<S> as Sink<F, G>>::observation_step(pre, o, post, r),
    ensures
        o.v.cp is Some ==> S::observation_step(pre.sink, o, post.sink, r),
        o.v.cp is None ==> post.sink == pre.sink && r == Ok::<(), Error>(()),
{
}

/// The filters that are asked for stand in front of a sink, with the interval in ticks.
pub proof fn lemma_filters<S>(sink: S, interval_ns: i64, require_cp: bool, r: Result<Filtered<S>>)
    requires
        interval_ns == 0 || (interval_ns >= 1_000_000_000 && interval_ns % 100 == 0
            && 86_400_000_000_000int % interval_ns as int == 0),
        call_ensures(filtered::<S>, (sink, interval_ns, require_cp), r),
    ensures
        interval_ns == 0 && !require_cp ==> (r matches Ok(Filtered::All(s)) && s == sink),
        interval_ns == 0 && require_cp ==> (r matches Ok(Filtered::Phase(f)) && f.sink == sink),
        interval_ns != 0 && !require_cp ==> (r matches Ok(Filtered::Decimated(d)) && d.sink == sink
            && d.interval * 100 == interval_ns),
        interval_ns != 0 && require_cp ==> (r matches Ok(Filtered::PhaseDecimated(f))
            && f.sink.sink == sink && f.sink.interval * 100 == interval_ns),
{
}

// ---- arcs ----

/// Whether an observation is another with its flag turned into a count.
pub open spec fn is_counted<F, G>(
    o: SignalObservation<F, G>,
    out: SignalObservation<F, G>,
    arc: int,
) -> bool {
    &&& out.t == o.t && out.sat == o.sat && out.sig == o.sig
    &&& out.v.frq == o.v.frq
    &&& out.v.pr == o.v.pr && out.v.cp == o.v.cp && out.v.dop == o.v.dop && out.v.cn0 == o.v.cn0
    &&& out.v.hc == o.v.hc && out.v.bt == o.v.bt
    &&& out.v.arc == arc
    &&& !out.v.ll
}

/// An observation is handed on with the count of its signal, which grows by one at a flag.
pub proof fn lemma_flag_counted<F: Copy, G: Copy, S: Sink<F, G>>(
    pre: LossOfLockSink<S>,
    o: SignalObservation<F, G>,
    post: LossOfLockSink<S>,
    r: Result<()>,
    other: SignalKey,
)
    requires
        <LossOfLockSink<S> as Sink<F, G>>::observation_step(pre, o, post, r),
        pre.counter(SignalKey { sat: o.sat, sig: o.sig }) < u32::MAX,
    ensures
        ({
            let k = SignalKey { sat: o.sat, sig: o.sig };
            let n = pre.counter(k) + (if o.v.ll { 1int } else { 0int });
            &&& exists|out: SignalObservation<F, G>| #[trigger]
                S::observation_step(pre.wrapped(), out, post.wrapped(), r) && is_counted(o, out, n)
            &&& post.counter(k) == n
            &&& other != k ==> post.counter(other) == pre.counter(other)
        }),
{
    let k = SignalKey { sat: o.sat, sig: o.sig };
    assert(o.key() == k);
    let out = crate::arc::with_arc(o, pre.counter(k));
    assert(S::observation_step(pre.wrapped(), out, post.wrapped(), r));
}

/// Whether observation `i` is the last of its signal before `j`.
pub open spec fn comes_last<F, G>(os: Seq<SignalObservation<F, G>>, i: int, j: int) -> bool {
    &&& 0 <= i < j < os.len()
    &&& os[i].sat == os[j].sat && os[i].sig == os[j].sig
    &&& forall|k: int|
        i < k < j ==> (#[trigger] os[k]).sat != os[j].sat || os[k].sig != os[j].sig
}

/// Whether no observation before `j` is of the same signal.
pub open spec fn comes_first<F, G>(os: Seq<SignalObservation<F, G>>, j: int) -> bool {
    forall|k: int| 0 <= k < j ==> (#[trigger] os[k]).sat != os[j].sat || os[k].sig != os[j].sig
}

proof fn lemma_count_kept<F, G>(os: Seq<SignalObservation<F, G>>, k: SignalKey, i: int, j: int)
    requires
        0 <= i <= j <= os.len(),
        forall|l: int| i <= l < j ==> (#[trigger] os[l]).key() != k,
    ensures
        arc_after(os.take(j), k) == arc_after(os.take(i), k),
    decreases j - i,
{
    if i < j {
        lemma_count_kept(os, k, i, j - 1);
        assert(os.take(j).drop_last() =~= os.take(j - 1));
        assert(os.take(j).last() == os[j - 1]);
    }
}

/// The arcs of a stream: the first observation of a signal has 1 where it is flagged, else 0;
/// each later one has what the one before it has, and one more where it is flagged. Nothing
/// else changes.
pub proof fn lemma_arcs_count_flags<F: Copy, G: Copy>(
    obs: &[SignalObservation<F, G>],
    r: Vec<SignalObservation<F, G>>,
    i: int,
    j: int,
)
    requires
        0 <= j < obs@.len(),
        call_ensures(accumulate_arc::<F, G>, (obs,), r),
    ensures
        r@.len() == obs@.len(),
        is_counted(obs@[j], r@[j], r@[j].v.arc as int),
        comes_first(obs@, j) ==> r@[j].v.arc == (if obs@[j].v.ll { 1int } else { 0int }),
        comes_last(obs@, i, j) && r@[i].v.arc < u32::MAX ==> r@[j].v.arc == r@[i].v.arc + (
        if obs@[j].v.ll { 1int } else { 0int }),
{
    let os = obs@;
    assert(r@ == accumulated(os));
    let k = os[j].key();
    if comes_first(os, j) {
        assert forall|l: int| 0 <= l < j implies (#[trigger] os[l]).key() != k by {}
        lemma_count_kept(os, k, 0, j);
        assert(os.take(0) =~= Seq::empty());
    }
    if comes_last(os, i, j) {
        assert forall|l: int| i + 1 <= l < j implies (#[trigger] os[l]).key() != k by {}
        lemma_count_kept(os, k, i + 1, j);
        assert(os.take(i + 1).drop_last() =~= os.take(i));
        assert(os.take(i + 1).last() == os[i]);
    }
}

/// A slip is told where the arc of a signal differs from the one before; of the first of a
/// signal a writer tells one where its arc is not 0, a comparison none.
pub proof fn lemma_arc_told(
    mid: ArcToLl,
    k: SignalKey,
    first: u32,
    second: u32,
    a: bool,
    b: bool,
)
    ensures
        forall|s: &mut ArcToLl| #[trigger]
            call_ensures(ArcToLl::lli, (s, k, first), a) && *final(s) == mid ==> tells_next(
                mid,
                k,
                second,
                second != first,
                b,
            ),
        forall|s: &mut ArcToLl| #[trigger]
            call_ensures(ArcToLl::transition, (s, k, first), a) && *final(s) == mid ==> tells_next(
                mid,
                k,
                second,
                second != first,
                b,
            ),
        forall|s: &mut ArcToLl| #[trigger]
            call_ensures(ArcToLl::lli, (s, k, first), a) && (*s).previous(k) is None ==> a == (first
                != 0),
        forall|s: &mut ArcToLl| #[trigger]
            call_ensures(ArcToLl::transition, (s, k, first), a) && (*s).previous(k) is None ==> !a,
        forall|s: ArcToLl| #[trigger]
            call_ensures(ArcToLl::new, (), s) ==> s.previous(k) is None,
{
}

/// Whether the next arc of a signal is told as a slip exactly where `slip` holds.
pub open spec fn tells_next(mid: ArcToLl, k: SignalKey, arc: u32, slip: bool, r: bool) -> bool {
    &&& forall|s: &mut ArcToLl| #[trigger]
        call_ensures(ArcToLl::lli, (s, k, arc), r) && *s == mid ==> r == slip
    &&& forall|s: &mut ArcToLl| #[trigger]
        call_ensures(ArcToLl::transition, (s, k, arc), r) && *s == mid ==> r == slip
}

// ---- constraints ----

/// Whether an interval begins some seconds before an instant and lasts some seconds, counted
/// in nanoseconds from 1980-01-06.
pub open spec fn begins_before(i: TimeInterval, t: Instant, before: int, length: int) -> bool {
    &&& i.start_ns == (t.secs - before - 315_964_800) * 1_000_000_000 + t.nanos
    &&& i.dur_ns == length * 1_000_000_000
}

/// Whether an instant can be counted in nanoseconds from 1980-01-06, and so can one a week
/// before it.
pub open spec fn is_near(t: Instant) -> bool {
    -8_000_000_000 <= t.secs <= 8_000_000_000 && t.nanos < 1_000_000_000
}

/// Without a date, the constraint is the week that ends at present; the file is refused where
/// it is older.
pub proof fn lemma_recent_week(
    now: Instant,
    modtime: Option<Instant>,
    r: WeekConstraint,
    q: WeekConstraint,
)
    requires
        is_near(now),
        call_ensures(recent_week_constraint, (now,), r),
        call_ensures(automatic_week_constraint, (now, modtime), q),
    ensures
        begins_before(r.interval, now, 604_800, 604_800),
        begins_before(q.interval, now, 604_800, 604_800),
        r.err is None,
        q.err is Some <==> (modtime matches Some(t) && t.secs + 604_800 < now.secs),
{
}

/// With a date, the constraint is that day wherever on Earth it is: from 14 hours before it
/// begins in UTC, for 50 hours.
pub proof fn lemma_day_constraint(date: Instant, filename: bool, r: WeekConstraint)
    requires
        is_near(date),
        call_ensures(date_week_constraint, (date, filename), r),
    ensures
        begins_before(r.interval, date, 50_400, 180_000),
        r.err is None,
{
}

/// A packet of a log was received within a minute of its time.
pub proof fn lemma_packet_constraint(t: Instant, r: TimeInterval)
    requires
        is_near(t),
        call_ensures(packet_log_week_constraint, (t,), r),
    ensures
        begins_before(r, t, 60, 120),
{
}

proof fn lemma_two_number(f: Seq<u8>, a: int, n: nat)
    requires
        0 <= a && a + 2 <= f.len(),
        two_digits(f, a, n as int),
    ensures
        crate::text::uint_text(f.subrange(a, a + 2)) == Some(n as int),
{
    crate::laws_rinex::lemma_two(n);
    crate::text::lemma_dec_len(n);
    crate::reread::lemma_padded_number(n, 2);
    assert(f.subrange(a, a + 2) =~= crate::text::zero_padded(n, 2));
}

/// Eight digits of a date are read as its midnight in UTC.
pub proof fn lemma_date_read(
    s: &str,
    c: Civil,
    d: Instant,
    r: std::result::Result<Instant, String>,
)
    requires
        is_instant(d, c),
        c.hour == 0 && c.minute == 0 && c.second == 0 && c.nanos == 0,
        utf8(s@).len() == 8,
        four_digits(utf8(s@), 0, c.year as int),
        two_digits(utf8(s@), 4, c.month as int),
        two_digits(utf8(s@), 6, c.day as int),
        call_ensures(parse_yyyymmdd, (s,), r),
    ensures
        r == Ok::<Instant, String>(d),
{
    let f = utf8(s@);
    crate::laws_time::lemma_is_instant(d, c);
    crate::laws_rinex::lemma_four(c.year as nat);
    crate::text::lemma_dec_len(c.year as nat);
    crate::reread::lemma_padded_number(c.year as nat, 4);
    assert(f.subrange(0, 4) =~= crate::text::zero_padded(c.year as nat, 4));
    lemma_two_number(f, 4, c.month as nat);
    lemma_two_number(f, 6, c.day as nat);
    assert(crate::week::midnight(c.year as int, c.month as int, c.day as int) == c);
}

// ---- hexadecimal ----

/// The value of a hexadecimal digit.
pub open spec fn nibble(b: u8) -> int {
    if b <= 0x39 {
        b - 0x30
    } else if b <= 0x46 {
        b - 0x41 + 10
    } else {
        b - 0x61 + 10
    }
}

/// Whether a byte is a hexadecimal digit.
pub open spec fn is_hex(b: u8) -> bool {
    0x30 <= b <= 0x39 || 0x41 <= b <= 0x46 || 0x61 <= b <= 0x66
}

/// Pairs of hexadecimal digits are read as bytes, the high half first; a text that is not
/// made of such pairs is refused.
pub proof fn lemma_hex_read(s: &str, i: int, r: std::result::Result<(), String>)
    ensures
        forall|out: &mut Vec<u8>| #[trigger]
            call_ensures(hex_decode, (s, out), r) ==> {
                let b = utf8(s@);
                &&& r is Ok <==> b.len() % 2 == 0 && (forall|k: int|
                    0 <= k < b.len() ==> is_hex(#[trigger] b[k]))
                &&& r is Ok ==> final(out)@.len() * 2 == b.len()
                &&& r is Ok && 0 <= i < final(out)@.len() ==> final(out)@[i] == nibble(b[2 * i]) * 16
                    + nibble(b[2 * i + 1])
            },
{
    let b = utf8(s@);
    assert(crate::packetlog::all_hex(b) <==> (forall|k: int|
        0 <= k < b.len() ==> is_hex(#[trigger] b[k]))) by {
        if crate::packetlog::all_hex(b) {
            assert forall|k: int| 0 <= k < b.len() implies is_hex(#[trigger] b[k]) by {
                assert(crate::packetlog::hex_val(b[k]) is Some);
            }
        }
    }
    if crate::packetlog::all_hex(b) && 0 <= i && 2 * i + 1 < b.len() {
        assert(crate::packetlog::hex_val(b[2 * i]) is Some);
        assert(crate::packetlog::hex_val(b[2 * i + 1]) is Some);
    }
}

} // verus!
