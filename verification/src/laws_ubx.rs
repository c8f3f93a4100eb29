//! What converting RXM-RAWX messages gives, measurement by measurement.

use crate::error::Result;
use crate::obs::{GpsTime, SatId, SigId, SignalKey, SignalObservation};
use crate::sink::{lemma_collected, received, Collector, Sink};
use crate::ubx::{
    batch_converted, batch_done, chunk_converted, fed, is_measured, meas_done, meas_key, meas_sent,
    meas_step, numbers_fit, rawx_converted, rawx_fits, rawx_measured, rawx_ok, state_in,
    Converter, Meas, MeasNumbers, Options, Rawx, RawxNumbers, SignalState,
};
use crate::ubx_decode::{rawx_in, RawxView};
use crate::ubx_frame::RawMeas;
use vstd::prelude::*;

verus! {

/// Whether a flag of the tracking status is set: of the range (1), the phase (2), the
/// resolved half cycle (4) or the subtracted half cycle (8).
pub open spec fn flag_set(trk_stat: u8, flag: int) -> bool {
    (trk_stat as int / flag) % 2 == 1
}

proof fn lemma_flags(b: u8)
    ensures
        b & 1 != 0 <==> flag_set(b, 1),
        b & 2 != 0 <==> flag_set(b, 2),
        b & 4 != 0 <==> flag_set(b, 4),
        b & 8 != 0 <==> flag_set(b, 8),
        b & 0x0f == b % 16,
{
    assert((b & 1 != 0 <==> (b / 1) % 2 == 1) && (b & 2 != 0 <==> (b / 2) % 2 == 1) && (b & 4 != 0
        <==> (b / 4) % 2 == 1) && (b & 8 != 0 <==> (b / 8) % 2 == 1) && b & 0x0f == b % 16)
        by (bit_vector);
}

/// The letter by which a system is written, where it is known: 0 is GPS, 1 SBAS,
/// 2 Galileo, 3 BeiDou, 5 QZSS, 6 GLONASS and 7 NavIC.
pub open spec fn letter(gnss_id: u8) -> Option<char> {
    match gnss_id {
        0 => Some('G'),
        1 => Some('S'),
        2 => Some('E'),
        3 => Some('C'),
        5 => Some('J'),
        6 => Some('R'),
        7 => Some('I'),
        _ => None,
    }
}

/// The band and the letter of a signal, where it is known.
pub open spec fn code(gnss_id: u8, sig_id: u8) -> Option<(int, char)> {
    match (gnss_id, sig_id) {
        (0, 0) => Some((1, 'C')),
        (0, 3) => Some((2, 'L')),
        (0, 4) => Some((2, 'S')),
        (0, 6) => Some((5, 'I')),
        (0, 7) => Some((5, 'Q')),
        (1, 0) => Some((1, 'C')),
        (2, 0) => Some((1, 'C')),
        (2, 1) => Some((1, 'B')),
        (2, 3) => Some((5, 'I')),
        (2, 4) => Some((5, 'Q')),
        (2, 5) => Some((7, 'I')),
        (2, 6) => Some((7, 'Q')),
        (2, 8) => Some((6, 'B')),
        (2, 9) => Some((6, 'C')),
        (2, 10) => Some((6, 'A')),
        (3, 0) => Some((2, 'I')),
        (3, 1) => Some((2, 'I')),
        (3, 2) => Some((7, 'I')),
        (3, 3) => Some((7, 'I')),
        (3, 4) => Some((6, 'I')),
        (3, 5) => Some((1, 'P')),
        (3, 6) => Some((1, 'D')),
        (3, 7) => Some((5, 'P')),
        (3, 8) => Some((5, 'D')),
        (3, 10) => Some((6, 'I')),
        (5, 0) => Some((1, 'C')),
        (5, 1) => Some((1, 'Z')),
        (5, 4) => Some((2, 'S')),
        (5, 5) => Some((2, 'L')),
        (5, 8) => Some((5, 'I')),
        (5, 9) => Some((5, 'Q')),
        (5, 12) => Some((1, 'E')),
        (6, 0) => Some((1, 'C')),
        (6, 2) => Some((2, 'C')),
        (7, 0) => Some((5, 'A')),
        _ => None,
    }
}

/// Whether the satellite and the signal of a measurement have a name.
pub open spec fn has_name<F, G>(m: Meas<F, G>) -> bool {
    &&& letter(m.gnss_id) is Some && code(m.gnss_id, m.sig_id) is Some
    &&& m.sv_id != 0
    &&& !(m.gnss_id == 6 && m.sv_id == 255)
}

/// Whether an observation bears the names of the satellite and the signal of a
/// measurement. SBAS satellites from 120 on are counted from 20 on.
pub open spec fn bears_name<F, G>(m: Meas<F, G>, o: SignalObservation<F, G>) -> bool {
    let n = if m.gnss_id == 1 && m.sv_id >= 120 {
        m.sv_id - 100
    } else {
        m.sv_id as int
    };
    &&& o.sat.0@[0] == letter(m.gnss_id)->0 as int
    &&& 0x30 <= o.sat.0@[1] <= 0x39 && 0x30 <= o.sat.0@[2] <= 0x39
    &&& (o.sat.0@[1] - 0x30) * 10 + (o.sat.0@[2] - 0x30) == n % 100
    &&& o.sig.0@[0] == 0x30 + (code(m.gnss_id, m.sig_id)->0).0
    &&& o.sig.0@[1] == (code(m.gnss_id, m.sig_id)->0).1 as int
}

/// Whether the half cycle is added to the phase of a measurement: for a BeiDou
/// satellite in geostationary orbit, where that is asked for.
pub open spec fn half_added<F, G>(m: Meas<F, G>, opts: Options) -> bool {
    opts.bds_geo_half_cycle && m.gnss_id == 3 && (m.sv_id <= 5 || m.sv_id >= 59)
}

/// The range of a measurement, where it is valid.
pub open spec fn range<F, G>(m: Meas<F, G>) -> Option<F> {
    if flag_set(m.trk_stat, 1) {
        m.pr_mes
    } else {
        None
    }
}

/// The phase of a measurement, where it is valid.
pub open spec fn phase<F, G>(m: Meas<F, G>, opts: Options) -> Option<F> {
    if !flag_set(m.trk_stat, 2) || m.cp_mes is None {
        None
    } else if half_added(m, opts) {
        m.cp_half
    } else {
        m.cp_mes
    }
}

/// Whether the half-cycle ambiguity of a measurement is open: for SBAS up to a lock
/// time of eight seconds, else unless a flag tells that it is resolved.
pub open spec fn is_open<F, G>(m: Meas<F, G>) -> bool {
    if m.gnss_id == 1 {
        m.lock_time <= 8000
    } else {
        !flag_set(m.trk_stat, 4)
    }
}

/// Whether a measurement gives an observation: it has a name and a value.
pub open spec fn gives<F, G>(m: Meas<F, G>, opts: Options) -> bool {
    has_name(m) && (range(m) is Some || phase(m, opts) is Some || m.do_mes is Some || m.cno != 0)
}

/// Whether an observation is that of a measurement at a time.
pub open spec fn is_of<F, G>(
    t: int,
    m: Meas<F, G>,
    opts: Options,
    o: SignalObservation<F, G>,
) -> bool {
    &&& o.t.0 == t
    &&& bears_name(m, o)
    &&& o.v.pr == range(m)
    &&& o.v.cp == phase(m, opts)
    &&& o.v.dop == m.do_mes
    &&& o.v.cn0 == (if m.cno != 0 { Some(m.cn0) } else { None })
    &&& m.gnss_id != 6 ==> o.v.frq is None
    &&& m.gnss_id == 6 ==> (o.v.frq matches Some(f) && f == (if m.freq_id < 128 {
        m.freq_id as int
    } else {
        m.freq_id - 256
    }) - 7)
    &&& o.v.hc == (o.v.cp is Some && is_open(m))
    &&& !o.v.bt
    &&& o.v.arc == 0
    &&& o.v.ll ==> o.v.cp is Some
}

/// The time of a message: its week and the time of week.
pub open spec fn time_of<F, G>(m: Rawx<F, G>) -> int {
    m.week * 6_048_000_000_000 + m.tow_ticks
}

/// Whether observations are those of the first `n` messages, of the last of them the
/// first `k` measurements: one for each that gives one, in their order. Observation
/// `j` is that of measurement `from[j].1` of message `from[j].0`.
pub open spec fn are_of<F, G>(
    batch: Seq<Rawx<F, G>>,
    opts: Options,
    n: int,
    k: int,
    from: Seq<(int, int)>,
    os: Seq<SignalObservation<F, G>>,
) -> bool {
    &&& from.len() == os.len()
    &&& forall|j: int|
        0 <= j < from.len() ==> {
            let (b, i) = #[trigger] from[j];
            &&& is_among(batch, n, k, b, i)
            &&& gives(batch[b].meas@[i], opts)
            &&& is_of(time_of(batch[b]), batch[b].meas@[i], opts, os[j])
        }
    &&& forall|j: int, l: int|
        0 <= j < l < from.len() ==> comes_before(#[trigger] from[j], #[trigger] from[l])
    &&& forall|b: int, i: int|
        #[trigger] is_among(batch, n, k, b, i) && gives(batch[b].meas@[i], opts) ==> from.contains(
            (b, i),
        )
}

/// Whether there is a measurement `i` of message `b` among the first `n` messages, of
/// the last of which only the first `k` measurements count.
pub open spec fn is_among<F, G>(batch: Seq<Rawx<F, G>>, n: int, k: int, b: int, i: int) -> bool {
    &&& 0 <= b < n <= batch.len()
    &&& 0 <= i < batch[b].meas@.len()
    &&& b == n - 1 ==> i < k
}

/// Whether one measurement comes before another.
pub open spec fn comes_before(x: (int, int), y: (int, int)) -> bool {
    x.0 < y.0 || (x.0 == y.0 && x.1 < y.1)
}

/// Whether a measurement shows a slip of itself: its lock time is 0 or its phase too
/// uncertain.
pub open spec fn shows_slip<F, G>(m: Meas<F, G>, threshold: u8) -> bool {
    m.lock_time == 0 || m.cp_stdev as int % 16 >= threshold
}

/// Whether a measurement shows a slip since an earlier one of the same signal: its
/// lock time went back, or half a cycle began or ceased to be subtracted.
pub open spec fn shows_slip_since<F, G>(m: Meas<F, G>, earlier: Meas<F, G>) -> bool {
    m.lock_time < earlier.lock_time || flag_set(m.trk_stat, 8) != flag_set(earlier.trk_stat, 8)
}

/// Whether a measurement shows a slip since what is remembered of its signal, or an
/// earlier slip waits for a phase.
pub open spec fn has_slipped<F, G>(st: SignalState, m: Meas<F, G>, threshold: u8) -> bool {
    ||| st.pending
    ||| shows_slip(m, threshold)
    ||| st.seen && m.lock_time < st.lock
    ||| flag_set(m.trk_stat, 8) != st.sub_half_cyc
}

/// Whether measurement `i` is the first of its satellite and signal.
pub open spec fn first_of_name<F, G>(meas: Seq<Meas<F, G>>, i: int) -> bool {
    forall|k: int| 0 <= k < i ==> meas_key(#[trigger] meas[k]) != meas_key(meas[i])
}

/// Whether loss of lock is flagged where there is a phase and the signal has slipped
/// since what was remembered of it before the message.
pub open spec fn flagged_from<F, G>(
    states: Map<u64, SignalState>,
    opts: Options,
    meas: Seq<Meas<F, G>>,
    from: Seq<(int, int)>,
    os: Seq<SignalObservation<F, G>>,
) -> bool {
    forall|j: int|
        0 <= j < from.len() && first_of_name(meas, (#[trigger] from[j]).1) ==> os[j].v.ll == (
        os[j].v.cp is Some && has_slipped(
            state_in(states, SignalKey { sat: os[j].sat, sig: os[j].sig }),
            meas[from[j].1],
            opts.slip_threshold,
        ))
}

/// Whether messages were converted: the sink received the observations of their
/// measurements, of all of them unless it refused one.
pub open spec fn measurements_received<F, G, S: Sink<F, G>>(
    pre: Converter<S>,
    batch: Seq<Rawx<F, G>>,
    post: Converter<S>,
    r: Result<u64>,
    n: int,
    k: int,
    from: Seq<(int, int)>,
    os: Seq<SignalObservation<F, G>>,
) -> bool {
    &&& 0 <= n <= batch.len()
    &&& are_of(batch, pre.options(), n, k, from, os)
    &&& batch.len() == 1 ==> flagged_from(pre.states(), pre.options(), batch[0].meas@, from, os)
    &&& post.options() == pre.options()
    &&& match r {
        Ok(count) => {
            &&& n == batch.len() && count == batch.len()
            &&& n > 0 ==> k == batch[n - 1].meas@.len()
            &&& received::<F, G, S>(pre.target(), os, post.target(), Ok(()))
        },
        Err(e) => received::<F, G, S>(pre.target(), os, post.target(), Err(e)),
    }
}

/// A measurement gives the observation that it should, or none.
proof fn lemma_meas<F, G>(states: Map<u64, SignalState>, t: GpsTime, m: Meas<F, G>, opts: Options)
    requires
        crate::ubx::channel_ok(m),
    ensures
        match meas_step(states, t, m, opts).1 {
            None => !gives(m, opts),
            Some(o) => gives(m, opts) && is_of(t.0 as int, m, opts, o),
        },
{
    lemma_flags(m.trk_stat);
    lemma_name(m);
}

proof fn lemma_name<F, G>(m: Meas<F, G>)
    ensures
        has_name(m) <==> meas_key(m) is Some,
        forall|o: SignalObservation<F, G>|
            meas_key(m) == Some(SignalKey { sat: o.sat, sig: o.sig }) ==> #[trigger] bears_name(
                m,
                o,
            ),
{
    if meas_key(m) is Some {
        let k = meas_key(m)->0;
        let n = crate::ubx::sat_num(m.gnss_id, m.sv_id);
        assert(k.sat.0@[1] == 0x30 + (n / 10) % 10 && k.sat.0@[2] == 0x30 + n % 10);
        let c = crate::ubx::signal_of(m.gnss_id, m.sig_id)->0;
        assert(c@[0] == 0x30 + (code(m.gnss_id, m.sig_id)->0).0 && c@[1] == (code(
            m.gnss_id,
            m.sig_id,
        )->0).1 as int);
    }
}

/// Whether a message can be converted: its time can be counted, and the channel of
/// each GLONASS satellite in it.
pub open spec fn convertible<F, G>(m: Rawx<F, G>) -> bool {
    &&& m.week * 604_800_000_000_000 <= i64::MAX
    &&& i64::MIN <= time_of(m) <= i64::MAX
    &&& forall|i: int|
        0 <= i < m.meas@.len() && (#[trigger] m.meas@[i]).gnss_id == 6 && has_name(m.meas@[i])
            ==> !(128 <= m.meas@[i].freq_id <= 134)
}

proof fn lemma_convertible<F, G>(m: Rawx<F, G>)
    ensures
        convertible(m) <==> rawx_ok(m),
{
    assert forall|i: int| 0 <= i < m.meas@.len() implies (has_name(#[trigger] m.meas@[i])
        <==> meas_key(m.meas@[i]) is Some) by {
        lemma_name(m.meas@[i]);
    }
    if rawx_ok(m) {
        assert forall|i: int|
            0 <= i < m.meas@.len() && (#[trigger] m.meas@[i]).gnss_id == 6 && has_name(
                m.meas@[i],
            ) implies !(128 <= m.meas@[i].freq_id <= 134) by {
            assert(crate::ubx::channel_ok(m.meas@[i]));
        }
    }
}

/// Whether observations are those of the first `k` measurements of message `b`.
spec fn own_of<F, G>(
    batch: Seq<Rawx<F, G>>,
    opts: Options,
    b: int,
    k: int,
    from: Seq<(int, int)>,
    os: Seq<SignalObservation<F, G>>,
) -> bool {
    &&& from.len() == os.len()
    &&& forall|j: int|
        0 <= j < from.len() ==> {
            let (c, i) = #[trigger] from[j];
            &&& c == b && 0 <= i < k
            &&& gives(batch[b].meas@[i], opts)
            &&& is_of(time_of(batch[b]), batch[b].meas@[i], opts, os[j])
        }
    &&& forall|j: int, l: int|
        0 <= j < l < from.len() ==> (#[trigger] from[j]).1 < (#[trigger] from[l]).1
    &&& forall|i: int|
        0 <= i < k && gives(#[trigger] batch[b].meas@[i], opts) ==> from.contains((b, i))
}

/// What is remembered of a signal is kept by the measurements of other signals.
proof fn lemma_states_kept<F, G>(
    states: Map<u64, SignalState>,
    t: GpsTime,
    meas: Seq<Meas<F, G>>,
    opts: Options,
    n: int,
    k: SignalKey,
)
    requires
        0 <= n <= meas.len(),
        forall|i: int| 0 <= i < n ==> meas_key(#[trigger] meas[i]) != Some(k),
    ensures
        state_in(meas_done(states, t, meas, opts, n).0, k) == state_in(states, k),
    decreases n,
{
    if n > 0 {
        lemma_states_kept(states, t, meas, opts, n - 1, k);
        if meas_key(meas[n - 1]) is Some {
            crate::obs::lemma_key_number_unique(meas_key(meas[n - 1])->0, k);
        }
    }
}

proof fn lemma_own<F, G>(
    states: Map<u64, SignalState>,
    batch: Seq<Rawx<F, G>>,
    opts: Options,
    b: int,
    k: int,
) -> (from: Seq<(int, int)>)
    requires
        0 <= b < batch.len(),
        0 <= k <= batch[b].meas@.len(),
        rawx_ok(batch[b]),
    ensures
        own_of(
            batch,
            opts,
            b,
            k,
            from,
            meas_done(states, GpsTime(time_of(batch[b]) as i64), batch[b].meas@, opts, k).1,
        ),
        flagged_from(
            states,
            opts,
            batch[b].meas@,
            from,
            meas_done(states, GpsTime(time_of(batch[b]) as i64), batch[b].meas@, opts, k).1,
        ),
    decreases k,
{
    let t = GpsTime(time_of(batch[b]) as i64);
    let meas = batch[b].meas@;
    if k <= 0 {
        Seq::empty()
    } else {
        let before = lemma_own(states, batch, opts, b, k - 1);
        let (s1, os) = meas_done(states, t, meas, opts, k - 1);
        let next = meas_done(states, t, meas, opts, k).1;
        assert(crate::ubx::channel_ok(meas[k - 1]));
        lemma_meas(s1, t, meas[k - 1], opts);
        let key = meas_key(meas[k - 1]);
        if key is Some && first_of_name(meas, k - 1) {
            lemma_states_kept(states, t, meas, opts, k - 1, key->0);
            lemma_flags(meas[k - 1].trk_stat);
            lemma_flags(meas[k - 1].cp_stdev);
        }
        let from = if gives(meas[k - 1], opts) {
            before.push((b, k - 1))
        } else {
            before
        };
        assert forall|j: int| 0 <= j < from.len() implies ({
            let (c, i) = #[trigger] from[j];
            &&& c == b && 0 <= i < k
            &&& gives(batch[b].meas@[i], opts)
            &&& is_of(time_of(batch[b]), batch[b].meas@[i], opts, next[j])
        }) by {
            if j < before.len() {
                assert(from[j] == before[j]);
                assert(next[j] == os[j]);
            }
        }
        assert forall|j: int|
            0 <= j < from.len() && first_of_name(meas, (#[trigger] from[j]).1) implies next[j].v.ll
            == (next[j].v.cp is Some && has_slipped(
            state_in(states, SignalKey { sat: next[j].sat, sig: next[j].sig }),
            meas[from[j].1],
            opts.slip_threshold,
        )) by {
            if j < before.len() {
                assert(from[j] == before[j]);
                assert(next[j] == os[j]);
            }
        }
        assert forall|j: int, l: int| 0 <= j < l < from.len() implies (#[trigger] from[j]).1 < (
        #[trigger] from[l]).1 by {
            assert(from[j] == before[j]);
            if l < before.len() {
                assert(from[l] == before[l]);
            }
        }
        assert forall|i: int|
            0 <= i < k && gives(#[trigger] batch[b].meas@[i], opts) implies from.contains(
            (b, i),
        ) by {
            if i < k - 1 {
                assert(before.contains((b, i)));
                let j = choose|j: int| 0 <= j < before.len() && before[j] == (b, i);
                assert(from[j] == (b, i));
            } else {
                assert(from[before.len() as int] == (b, i));
            }
        }
        from
    }
}

proof fn lemma_join<F, G>(
    batch: Seq<Rawx<F, G>>,
    opts: Options,
    b: int,
    k0: int,
    k: int,
    from0: Seq<(int, int)>,
    os0: Seq<SignalObservation<F, G>>,
    from1: Seq<(int, int)>,
    os1: Seq<SignalObservation<F, G>>,
)
    requires
        0 <= b < batch.len(),
        0 <= k <= batch[b].meas@.len(),
        b > 0 ==> k0 == batch[b - 1].meas@.len(),
        are_of(batch, opts, b, k0, from0, os0),
        own_of(batch, opts, b, k, from1, os1),
    ensures
        are_of(batch, opts, b + 1, k, from0 + from1, os0 + os1),
{
    let from = from0 + from1;
    let os = os0 + os1;
    let n = from0.len();
    assert forall|j: int| 0 <= j < from.len() implies ({
        let (c, i) = #[trigger] from[j];
        &&& is_among(batch, b + 1, k, c, i)
        &&& gives(batch[c].meas@[i], opts)
        &&& is_of(time_of(batch[c]), batch[c].meas@[i], opts, os[j])
    }) by {
        if j < n {
            assert(from[j] == from0[j] && os[j] == os0[j]);
        } else {
            assert(from[j] == from1[j - n] && os[j] == os1[j - n]);
        }
    }
    assert forall|j: int, l: int| 0 <= j < l < from.len() implies comes_before(
        #[trigger] from[j],
        #[trigger] from[l],
    ) by {
        if l < n {
            assert(comes_before(from0[j], from0[l]));
        } else if j >= n {
            assert(from[j] == from1[j - n] && from[l] == from1[l - n]);
            assert(from1[j - n].1 < from1[l - n].1);
        } else {
            assert(from[j] == from0[j] && from[l] == from1[l - n]);
        }
    }
    assert forall|c: int, i: int|
        #[trigger] is_among(batch, b + 1, k, c, i) && gives(
            batch[c].meas@[i],
            opts,
        ) implies from.contains((c, i)) by {
        if c < b {
            assert(is_among(batch, b, k0, c, i));
            let j = choose|j: int| 0 <= j < n && from0[j] == (c, i);
            assert(from[j] == (c, i));
        } else {
            assert(from1.contains((b, i)));
            let j = choose|j: int| 0 <= j < from1.len() && from1[j] == (b, i);
            assert(from[n + j] == (c, i));
        }
    }
}

/// What a sink receives in two parts it receives as a whole.
proof fn lemma_received_join<F, G, S: Sink<F, G>>(
    pre: S,
    a: Seq<SignalObservation<F, G>>,
    mid: S,
    b: Seq<SignalObservation<F, G>>,
    post: S,
    r: Result<()>,
)
    requires
        received::<F, G, S>(pre, a, mid, Ok(())),
        received::<F, G, S>(mid, b, post, r),
    ensures
        received::<F, G, S>(pre, a + b, post, r),
    decreases b.len(),
{
    if b.len() == 0 {
        assert(a + b =~= a);
    } else {
        let x = choose|x: S|
            {
                &&& received::<F, G, S>(mid, b.drop_last(), x, Ok(()))
                &&& #[trigger] S::observation_step(x, b.last(), post, r)
            };
        lemma_received_join(pre, a, mid, b.drop_last(), x, Ok(()));
        assert((a + b).drop_last() =~= a + b.drop_last());
        assert((a + b).last() == b.last());
    }
}

/// What the first `n` messages do.
spec fn first_received<F, G, S: Sink<F, G>>(
    pre: Converter<S>,
    batch: Seq<Rawx<F, G>>,
    n: int,
    post: Converter<S>,
    r: Result<()>,
    k: int,
    from: Seq<(int, int)>,
    os: Seq<SignalObservation<F, G>>,
) -> bool {
    &&& are_of(batch, pre.options(), n, k, from, os)
    &&& n <= 1 && batch.len() > 0 ==> flagged_from(
        pre.states(),
        pre.options(),
        batch[0].meas@,
        from,
        os,
    )
    &&& post.options() == pre.options()
    &&& received::<F, G, S>(pre.target(), os, post.target(), r)
    &&& r is Ok && n > 0 ==> k == batch[n - 1].meas@.len()
}

proof fn lemma_first_received<F, G, S: Sink<F, G>>(
    pre: Converter<S>,
    batch: Seq<Rawx<F, G>>,
    n: int,
    post: Converter<S>,
    r: Result<()>,
) -> (p: (int, Seq<(int, int)>, Seq<SignalObservation<F, G>>))
    requires
        0 <= n <= batch.len(),
        forall|i: int| 0 <= i < batch.len() ==> rawx_ok(#[trigger] batch[i]),
        batch_converted::<F, G, S>(pre, batch.take(n), post, r),
    ensures
        first_received(pre, batch, n, post, r, p.0, p.1, p.2),
    decreases n,
{
    if n == 0 {
        assert(batch.take(0) =~= Seq::empty());
        (0int, Seq::empty(), Seq::empty())
    } else {
        assert(batch.take(n).drop_last() =~= batch.take(n - 1));
        assert(batch.take(n).last() == batch[n - 1]);
        let mid = choose|mid: Converter<S>|
            {
                &&& batch_converted::<F, G, S>(pre, batch.take(n).drop_last(), mid, Ok(()))
                &&& #[trigger] rawx_converted(mid, batch.take(n).last(), post, r)
            };
        let (k0, from0, os0) = lemma_first_received(pre, batch, n - 1, mid, Ok(()));
        let m = batch[n - 1];
        let (k, sent) = choose|k: int, sent: Result<()>| #[trigger]
            meas_sent(mid, m, post, r, k, sent);
        let from1 = lemma_own(mid.states(), batch, pre.options(), n - 1, k);
        let os1 = meas_done(
            mid.states(),
            GpsTime(time_of(m) as i64),
            m.meas@,
            pre.options(),
            k,
        ).1;
        lemma_join(batch, pre.options(), n - 1, k0, k, from0, os0, from1, os1);
        lemma_received_join(pre.target(), os0, mid.target(), os1, post.target(), r);
        if n == 1 {
            assert(batch.take(0) =~= Seq::empty());
            assert(from0.len() == 0) by {
                if from0.len() > 0 {
                    let (b, i) = from0[0];
                    assert(is_among(batch, 0, k0, b, i));
                }
            }
            assert(from0 + from1 =~= from1);
            assert(os0 + os1 =~= os1);
        }
        (k, from0 + from1, os0 + os1)
    }
}

/// Converting messages hands on the observation of every measurement that gives one,
/// in their order, with the satellite, the signal and the values of that measurement.
pub proof fn lemma_every_measurement_is_converted<F: Copy, G: Copy, S: Sink<F, G>>(
    batch: &[Rawx<F, G>],
    r: Result<u64>,
)
    requires
        forall|i: int| 0 <= i < batch@.len() ==> convertible(#[trigger] batch@[i]),
    ensures
        forall|c: &mut Converter<S>| #[trigger]
            call_ensures(Converter::<S>::convert_batch::<F, G>, (c, batch), r)
                ==> batch_observed::<F, G, S>(*c, batch@, *final(c), r),
{
    assert forall|i: int| 0 <= i < batch@.len() implies rawx_ok(#[trigger] batch@[i]) by {
        assert(convertible(batch@[i]));
        lemma_convertible(batch@[i]);
    }
    assert forall|c: &mut Converter<S>| #[trigger]
        call_ensures(
            Converter::<S>::convert_batch::<F, G>,
            (c, batch),
            r,
        ) implies batch_observed::<F, G, S>(*c, batch@, *final(c), r) by {
        lemma_batch_observed::<F, G, S>(*c, batch@, *final(c), r);
    }
}

/// Whether messages were converted, measurement by measurement.
pub open spec fn batch_observed<F, G, S: Sink<F, G>>(
    pre: Converter<S>,
    batch: Seq<Rawx<F, G>>,
    post: Converter<S>,
    r: Result<u64>,
) -> bool {
    exists|n: int, k: int, from: Seq<(int, int)>, os: Seq<SignalObservation<F, G>>| #[trigger]
        measurements_received(pre, batch, post, r, n, k, from, os)
}

proof fn lemma_batch_observed<F, G, S: Sink<F, G>>(
    pre: Converter<S>,
    batch: Seq<Rawx<F, G>>,
    post: Converter<S>,
    r: Result<u64>,
)
    requires
        forall|i: int| 0 <= i < batch.len() ==> rawx_ok(#[trigger] batch[i]),
        batch_done::<F, G, S>(pre, batch, post, r),
    ensures
        batch_observed::<F, G, S>(pre, batch, post, r),
{
    match r {
        Ok(_) => {
            let n = batch.len() as int;
            assert(batch.take(n) =~= batch);
            let (k, from, os) = lemma_first_received(pre, batch, n, post, Ok(()));
            assert(measurements_received(pre, batch, post, r, n, k, from, os));
        },
        Err(e) => {
            let n = choose|n: int|
                0 < n <= batch.len() && batch_converted::<F, G, S>(
                    pre,
                    #[trigger] batch.take(n),
                    post,
                    Err(e),
                );
            let (k, from, os) = lemma_first_received(pre, batch, n, post, Err(e));
            assert(measurements_received(pre, batch, post, r, n, k, from, os));
        },
    }
}

/// Observations that come one from each of some of `n` measurements are at most `n`,
/// and exactly `n` where each measurement gives one: the `i`-th is then that of
/// measurement `i`.
proof fn lemma_all_give<F, G>(
    m: Rawx<F, G>,
    opts: Options,
    from: Seq<(int, int)>,
    os: Seq<SignalObservation<F, G>>,
    j: int,
)
    requires
        are_of(seq![m], opts, 1, m.meas@.len() as int, from, os),
        forall|i: int| 0 <= i < m.meas@.len() ==> gives(#[trigger] m.meas@[i], opts),
        0 <= j <= m.meas@.len(),
    ensures
        from.len() >= j,
        forall|i: int| 0 <= i < j ==> from[i] == (0int, i),
    decreases j,
{
    if j > 0 {
        lemma_all_give(m, opts, from, os, j - 1);
        let b = seq![m];
        assert(b[0] == m);
        assert(is_among(b, 1, m.meas@.len() as int, 0, j - 1));
        assert(gives(b[0].meas@[j - 1], opts));
        assert(from.contains((0int, j - 1)));
        let l = choose|l: int| 0 <= l < from.len() && from[l] == (0int, j - 1);
        if l < j - 1 {
            assert(from[l] == (0int, l));
        } else if l > j - 1 {
            let (c, i) = from[j - 1];
            assert(comes_before(from[j - 1], from[l]));
            assert(is_among(b, 1, m.meas@.len() as int, c, i));
            assert(c == 0 && i < j - 1);
            assert(from[i] == (0int, i));
            assert(comes_before(from[i], from[j - 1]));
        }
    }
}

/// A message whose measurements all have a known satellite and signal and a valid range
/// gives exactly as many observations, the `i`-th of them that of measurement `i`.
pub proof fn lemma_known_measurements_all_come<F: Copy, G: Copy>(
    m: Rawx<F, G>,
    batch: &[Rawx<F, G>],
    r: Result<u64>,
)
    requires
        batch@ == seq![m],
        convertible(m),
        forall|i: int|
            0 <= i < m.meas@.len() ==> has_name(#[trigger] m.meas@[i]) && range(m.meas@[i]) is Some,
    ensures
        forall|c: &mut Converter<Collector<F, G>>| #[trigger]
            call_ensures(Converter::<Collector<F, G>>::convert_batch::<F, G>, (c, batch), r)
                ==> all_collected((*c).target(), (*c).options(), m, final(c).target()),
{
    assert(batch@[0] == m);
    assert(batch@.len() == 1);
    lemma_every_measurement_is_converted::<F, G, Collector<F, G>>(batch, r);
    assert forall|c: &mut Converter<Collector<F, G>>| #[trigger]
        call_ensures(
            Converter::<Collector<F, G>>::convert_batch::<F, G>,
            (c, batch),
            r,
        ) implies all_collected((*c).target(), (*c).options(), m, final(c).target()) by {
        let pre = *c;
        let post = *final(c);
        assert(batch_observed::<F, G, Collector<F, G>>(pre, batch@, post, r));
        let (n, k, from, os) = choose|
            n: int,
            k: int,
            from: Seq<(int, int)>,
            os: Seq<SignalObservation<F, G>>,
        | #[trigger]
            measurements_received(pre, batch@, post, r, n, k, from, os);
        if r is Err {
            lemma_collected(pre.target(), os, post.target(), Err(r->Err_0));
        } else {
            lemma_collected(pre.target(), os, post.target(), Ok(()));
        }
        lemma_all_give(m, pre.options(), from, os, m.meas@.len() as int);
        if from.len() > m.meas@.len() {
            let (b, i) = from[m.meas@.len() as int];
            assert(is_among(batch@, n, k, b, i));
            assert(from[i] == (0int, i));
            assert(comes_before(from[i], from[m.meas@.len() as int]));
        }
        let got = post.target().obs@;
        let had = pre.target().obs@;
        assert forall|i: int| 0 <= i < m.meas@.len() implies is_of(
            time_of(m),
            #[trigger] m.meas@[i],
            pre.options(),
            got[had.len() + i],
        ) by {
            assert(from[i] == (0int, i));
            assert(got[had.len() + i] == os[i]);
        }
    }
}

/// Whether a collector has received the observations of all measurements of a message.
pub open spec fn all_collected<F, G>(
    pre: Collector<F, G>,
    opts: Options,
    m: Rawx<F, G>,
    post: Collector<F, G>,
) -> bool {
    &&& post.obs@.len() == pre.obs@.len() + m.meas@.len()
    &&& forall|i: int| 0 <= i < pre.obs@.len() ==> #[trigger] post.obs@[i] == pre.obs@[i]
    &&& forall|i: int|
        0 <= i < m.meas@.len() ==> is_of(
            time_of(m),
            #[trigger] m.meas@[i],
            opts,
            post.obs@[pre.obs@.len() + i],
        )
}

// ---- slips ----

/// Whether a measurement of a signal is flagged exactly where `flag` holds.
pub open spec fn slips_next<F, G, S>(
    mid: Converter<S>,
    sat: SatId,
    sig: SigId,
    m: &Meas<F, G>,
    phase: bool,
    flag: bool,
    r: (bool, bool),
) -> bool {
    forall|d: &mut Converter<S>| #[trigger]
        call_ensures(Converter::<S>::slip_hc::<F, G>, (d, sat, sig, m, phase), r) && *d == mid
            ==> r == (flag, phase && is_open(*m))
}

/// After a measurement with a phase, the next of the same signal is flagged exactly
/// where it has a phase and shows a slip of itself or since the first.
pub proof fn lemma_slip_after_phase<F, G, S>(
    mid: Converter<S>,
    sat: SatId,
    sig: SigId,
    first: &Meas<F, G>,
    second: &Meas<F, G>,
    phase: bool,
    r1: (bool, bool),
    r2: (bool, bool),
)
    ensures
        forall|c: &mut Converter<S>| #[trigger]
            call_ensures(Converter::<S>::slip_hc::<F, G>, (c, sat, sig, first, true), r1)
                && *final(c) == mid ==> slips_next(
                mid,
                sat,
                sig,
                second,
                phase,
                phase && (shows_slip(*second, mid.options().slip_threshold) || shows_slip_since(
                    *second,
                    *first,
                )),
                r2,
            ),
{
    lemma_flags(first.trk_stat);
    lemma_flags(second.trk_stat);
    lemma_flags(second.cp_stdev);
}

/// A slip of a measurement without a phase is flagged at the next that has one: where
/// the first would have been flagged with a phase, the second is.
pub proof fn lemma_slip_waits_for_phase<F, G, S>(
    pre: Converter<S>,
    mid: Converter<S>,
    sat: SatId,
    sig: SigId,
    first: &Meas<F, G>,
    second: &Meas<F, G>,
    phase: bool,
    with_phase: (bool, bool),
    r1: (bool, bool),
    r2: (bool, bool),
)
    ensures
        ({
            let threshold = pre.options().slip_threshold;
            let slipped = has_slipped(
                state_in(pre.states(), SignalKey { sat, sig }),
                *first,
                threshold,
            );
            &&& slips_next(pre, sat, sig, first, true, slipped, with_phase)
            &&& forall|c: &mut Converter<S>| #[trigger]
                call_ensures(Converter::<S>::slip_hc::<F, G>, (c, sat, sig, first, false), r1) && *c
                    == pre && *final(c) == mid ==> r1 == (false, false) && slips_next(
                    mid,
                    sat,
                    sig,
                    second,
                    phase,
                    phase && (slipped || shows_slip(*second, threshold) || shows_slip_since(
                        *second,
                        *first,
                    )),
                    r2,
                )
        }),
{
    lemma_flags(first.trk_stat);
    lemma_flags(second.trk_stat);
    lemma_flags(first.cp_stdev);
    lemma_flags(second.cp_stdev);
}

/// The first measurement of a signal is flagged exactly where it has a phase and shows
/// a slip of itself, or has half a cycle subtracted. A threshold of 0 stands for 15.
pub proof fn lemma_first_slip<F, G, S>(
    sink: S,
    opts: Options,
    new: Converter<S>,
    sat: SatId,
    sig: SigId,
    m: &Meas<F, G>,
    phase: bool,
    r: (bool, bool),
)
    requires
        call_ensures(Converter::<S>::new, (sink, opts), new),
    ensures
        slips_next(
            new,
            sat,
            sig,
            m,
            phase,
            phase && (shows_slip(
                *m,
                if opts.slip_threshold == 0 {
                    15
                } else {
                    opts.slip_threshold
                },
            ) || flag_set(m.trk_stat, 8)),
            r,
        ),
        new.target() == sink,
        new.options().bds_geo_half_cycle == opts.bds_geo_half_cycle,
{
    lemma_flags(m.trk_stat);
    lemma_flags(m.cp_stdev);
}

/// A measurement of one signal tells nothing of another.
pub proof fn lemma_slips_are_separate<F, G, S>(
    pre: Converter<S>,
    mid: Converter<S>,
    sat: SatId,
    sig: SigId,
    m: &Meas<F, G>,
    phase: bool,
    r: (bool, bool),
    other: SignalKey,
)
    requires
        other != (SignalKey { sat, sig }),
    ensures
        forall|c: &mut Converter<S>| #[trigger]
            call_ensures(Converter::<S>::slip_hc::<F, G>, (c, sat, sig, m, phase), r) && *c == pre
                && *final(c) == mid ==> {
                &&& state_in(mid.states(), other) == state_in(pre.states(), other)
                &&& mid.target() == pre.target()
                &&& mid.options() == pre.options()
            },
{
    crate::obs::lemma_key_number_unique(other, (SignalKey { sat, sig }));
}

/// The observation of one measurement, where it gives one.
pub proof fn lemma_one_observation<F: Copy, G: Copy, S>(
    t: GpsTime,
    m: &Meas<F, G>,
    r: Option<SignalObservation<F, G>>,
)
    requires
        m.gnss_id == 6 && has_name(*m) ==> !(128 <= m.freq_id <= 134),
    ensures
        forall|c: &mut Converter<S>| #[trigger]
            call_ensures(Converter::<S>::observation::<F, G>, (c, t, m), r) ==> match r {
                None => !gives(*m, (*c).options()),
                Some(o) => gives(*m, (*c).options()) && is_of(t.0 as int, *m, (*c).options(), o)
                    && o.v.ll == (o.v.cp is Some && has_slipped(
                    state_in((*c).states(), SignalKey { sat: o.sat, sig: o.sig }),
                    *m,
                    (*c).options().slip_threshold,
                )),
            },
{
    lemma_name(*m);
    lemma_flags(m.trk_stat);
    lemma_flags(m.cp_stdev);
    assert forall|c: &mut Converter<S>| #[trigger]
        call_ensures(Converter::<S>::observation::<F, G>, (c, t, m), r) implies match r {
        None => !gives(*m, (*c).options()),
        Some(o) => gives(*m, (*c).options()) && is_of(t.0 as int, *m, (*c).options(), o) && o.v.ll
            == (o.v.cp is Some && has_slipped(
            state_in((*c).states(), SignalKey { sat: o.sat, sig: o.sig }),
            *m,
            (*c).options().slip_threshold,
        )),
    } by {
        lemma_meas((*c).states(), t, *m, (*c).options());
    }
}

// ---- chunks of bytes ----

/// Whether the bits of a double are those of a number: its exponent is not all ones.
pub open spec fn is_number(bits: u64) -> bool {
    bits as int / 4_503_599_627_370_496 % 2048 < 2047
}

/// Whether the bits of a single are those of a number.
pub open spec fn is_short_number(bits: u32) -> bool {
    bits as int / 8_388_608 % 256 < 255
}

/// Whether a measurement is one of a message with the quantities computed from it: one
/// that is not a number is absent.
pub open spec fn has_quantities<F, G>(
    raw: RawMeas,
    n: MeasNumbers<F, G>,
    m: Meas<F, G>,
) -> bool {
    &&& m.pr_mes == (if is_number(raw.pr_mes) { Some(n.pr) } else { None })
    &&& m.cp_mes == (if is_number(raw.cp_mes) { Some(n.cp) } else { None })
    &&& m.cp_half == (if is_number(raw.cp_mes) { Some(n.cp_half) } else { None })
    &&& m.do_mes == (if is_short_number(raw.do_mes) { Some(n.dop) } else { None })
    &&& m.cn0 == n.cn0
    &&& m.gnss_id == raw.gnss_id && m.sv_id == raw.sv_id && m.sig_id == raw.sig_id
    &&& m.freq_id == raw.freq_id && m.lock_time == raw.lock_time && m.cno == raw.cno
    &&& m.cp_stdev == raw.cp_stdev && m.trk_stat == raw.trk_stat
}

/// Whether messages are those found in bytes, with their quantities.
pub open spec fn are_found<F, G>(
    found: Seq<RawxView>,
    numbers: Seq<RawxNumbers<F, G>>,
    batch: Seq<Rawx<F, G>>,
) -> bool {
    &&& batch.len() == found.len()
    &&& forall|b: int|
        0 <= b < batch.len() ==> {
            &&& (#[trigger] batch[b]).week == found[b].1
            &&& batch[b].tow_ticks == numbers[b].tow_ticks
            &&& batch[b].meas@.len() == found[b].2.len()
        }
    &&& forall|b: int, i: int|
        0 <= b < batch.len() && 0 <= i < found[b].2.len() ==> has_quantities(
            found[b].2[i],
            numbers[b].meas@[i],
            #[trigger] batch[b].meas@[i],
        )
}

/// A chunk of bytes whose messages have their quantities and can be converted gives the
/// observations of every measurement in them.
pub proof fn lemma_chunk_observed<F: Copy, G: Copy, S: Sink<F, G>>(
    data: &[u8],
    numbers: &[RawxNumbers<F, G>],
    r: Result<u64>,
)
    ensures
        forall|c: &mut Converter<S>| #[trigger]
            call_ensures(Converter::<S>::convert_chunk::<F, G>, (c, data, numbers), r)
                && numbers_fit(rawx_in((*c).pending() + data@), numbers@) ==> chunk_observed(
                *c,
                rawx_in((*c).pending() + data@),
                numbers@,
                *final(c),
                r,
            ),
        forall|c: &mut Converter<S>| #[trigger]
            call_ensures(Converter::<S>::convert_chunk::<F, G>, (c, data, numbers), r)
                && !numbers_fit(rawx_in((*c).pending() + data@), numbers@) ==> r is Err && final(
                c).target() == (*c).target() && final(c).states() == (*c).states(),
{
    assert forall|c: &mut Converter<S>| #[trigger]
        call_ensures(Converter::<S>::convert_chunk::<F, G>, (c, data, numbers), r) && numbers_fit(
            rawx_in((*c).pending() + data@),
            numbers@,
        ) implies chunk_observed(
        *c,
        rawx_in((*c).pending() + data@),
        numbers@,
        *final(c),
        r,
    ) by {
        let bytes = (*c).pending() + data@;
        let found = rawx_in(bytes);
        let post = *final(c);
        assert(chunk_converted(*c, data@, numbers@, post, r));
        let (mid, batch) = choose|mid: Converter<S>, batch: Seq<Rawx<F, G>>|
            {
                &&& #[trigger] fed(*c, bytes, mid)
                &&& #[trigger] is_measured(found, numbers@, batch)
                &&& batch_done(mid, batch, post, r)
            };
        lemma_found(found, numbers@, batch);
        lemma_batch_observed::<F, G, S>(mid, batch, post, r);
        let (n, k, from, os) = choose|
            n: int,
            k: int,
            from: Seq<(int, int)>,
            os: Seq<SignalObservation<F, G>>,
        | #[trigger]
            measurements_received(mid, batch, post, r, n, k, from, os);
        assert(measurements_received(*c, batch, post, r, n, k, from, os));
        assert(batch_observed::<F, G, S>(*c, batch, post, r));
    }
}

/// Whether the messages that were found were converted with their quantities.
pub open spec fn chunk_observed<F, G, S: Sink<F, G>>(
    pre: Converter<S>,
    found: Seq<RawxView>,
    numbers: Seq<RawxNumbers<F, G>>,
    post: Converter<S>,
    r: Result<u64>,
) -> bool {
    exists|batch: Seq<Rawx<F, G>>| #[trigger]
        are_found(found, numbers, batch) && batch_observed::<F, G, S>(pre, batch, post, r)
}

proof fn lemma_found<F, G>(
    found: Seq<RawxView>,
    numbers: Seq<RawxNumbers<F, G>>,
    batch: Seq<Rawx<F, G>>,
)
    requires
        numbers_fit(found, numbers),
        is_measured(found, numbers, batch),
    ensures
        are_found(found, numbers, batch),
        forall|i: int| 0 <= i < batch.len() ==> rawx_ok(#[trigger] batch[i]),
{
    assert forall|b: int| 0 <= b < batch.len() implies rawx_ok(#[trigger] batch[b]) by {
        assert(rawx_measured(found[b], numbers[b], batch[b]));
        assert(rawx_fits(found[b], numbers[b]));
        assert forall|i: int| 0 <= i < batch[b].meas@.len() implies crate::ubx::channel_ok(
            #[trigger] batch[b].meas@[i],
        ) by {
            assert(batch[b].meas@[i] == crate::ubx::measured(found[b].2[i], numbers[b].meas@[i]));
        }
    }
    assert forall|b: int| 0 <= b < batch.len() implies (#[trigger] batch[b]).week == found[b].1
        && batch[b].tow_ticks == numbers[b].tow_ticks && batch[b].meas@.len()
        == found[b].2.len() by {
        assert(rawx_measured(found[b], numbers[b], batch[b]));
    }
    assert forall|b: int, i: int|
        0 <= b < batch.len() && 0 <= i < found[b].2.len() implies has_quantities(
        found[b].2[i],
        numbers[b].meas@[i],
        #[trigger] batch[b].meas@[i],
    ) by {
        assert(rawx_measured(found[b], numbers[b], batch[b]));
        assert(batch[b].meas@[i] == crate::ubx::measured(found[b].2[i], numbers[b].meas@[i]));
    }
}

/// Where each message has its quantities, and can be converted with them, they fit.
pub proof fn lemma_convertible_fits<F, G>(
    found: Seq<RawxView>,
    numbers: Seq<RawxNumbers<F, G>>,
    batch: Seq<Rawx<F, G>>,
)
    requires
        numbers.len() == found.len(),
        forall|b: int|
            0 <= b < found.len() ==> (#[trigger] numbers[b]).meas@.len() == found[b].2.len(),
        are_found(found, numbers, batch),
        forall|b: int| 0 <= b < batch.len() ==> convertible(#[trigger] batch[b]),
    ensures
        numbers_fit(found, numbers),
{
    assert forall|b: int| 0 <= b < found.len() implies rawx_fits(#[trigger] found[b], numbers[b]) by {
        assert(numbers[b].meas@.len() == found[b].2.len());
        let m = batch[b];
        assert(m.week == found[b].1);
        assert(convertible(m));
        lemma_convertible(m);
        assert forall|i: int| 0 <= i < found[b].2.len() implies crate::ubx::channel_ok(
            #[trigger] crate::ubx::measured(found[b].2[i], numbers[b].meas@[i]),
        ) by {
            let x = crate::ubx::measured(found[b].2[i], numbers[b].meas@[i]);
            assert(crate::ubx::channel_ok(batch[b].meas@[i]));
            assert(has_quantities(found[b].2[i], numbers[b].meas@[i], batch[b].meas@[i]));
        }
    }
}

} // verus!
