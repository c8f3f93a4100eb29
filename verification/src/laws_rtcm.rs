//! What converting an RTCM message gives, signal by signal.

use crate::error::{Error, Result};
use crate::obs::{GpsTime, SatId, SigId, SignalKey, SignalObservation};
use crate::rtcm::{
    cell_at, cell_key, cell_step, cells_done, cells_sent, epoch_converted, epoch_resolved,
    frame_valid,
    message_converted, msm_converted, sat_index, CellValues, Converter, Message, MessageView,
    Numbers, NumbersView, SatData, SigData, TimeInterval, Tracks,
};
use crate::metadata::MetadataView;
use crate::rtcm::{
    cleaned, marker_of, message_metadata, metadata_sent, time_resolved, Gnss, Options,
};
use crate::rtcm_decode::message_in;
use crate::rtcm_time::{
    as_ints, candidate_after, epoch_offsets, lemma_candidates_complete, matches_week, nearest_at,
    week_resolved, week_tick,
};
use crate::sink::{received, Sink};
use crate::text::number_text;
use vstd::prelude::*;

verus! {

/// The letter by which a system is written: G, R, E, S, J, C or I.
pub open spec fn letter(gnss: Gnss) -> u8 {
    match gnss {
        Gnss::Gps => 0x47,
        Gnss::Glonass => 0x52,
        Gnss::Galileo => 0x45,
        Gnss::Sbas => 0x53,
        Gnss::Qzss => 0x4a,
        Gnss::Beidou => 0x43,
        Gnss::Irnss => 0x49,
    }
}

/// Whether a system has a satellite with this number.
pub open spec fn has_satellite(gnss: Gnss, id: u8) -> bool {
    1 <= id && match gnss {
        Gnss::Gps => id <= 63,
        Gnss::Glonass => id <= 24,
        Gnss::Galileo => id <= 50,
        Gnss::Sbas => id <= 39,
        Gnss::Qzss => id <= 10,
        Gnss::Beidou => id <= 63,
        Gnss::Irnss => id <= 14,
    }
}

/// Whether the satellite and the signal of a cell have a name.
pub open spec fn has_name<V>(gnss: Gnss, sig: SigData<V>) -> bool {
    &&& has_satellite(gnss, sig.satellite_id)
    &&& 1 <= sig.band <= 9
    &&& 0x41 <= sig.attribute <= 0x5a
}

/// Whether an observation bears the names of the satellite and the signal of a cell:
/// the letter of the system and two digits, and the digit of the band and its letter.
/// SBAS satellites are counted from 20 on.
pub open spec fn bears_name<V, F, G>(
    gnss: Gnss,
    sig: SigData<V>,
    o: SignalObservation<F, G>,
) -> bool {
    let n = if gnss == Gnss::Sbas {
        sig.satellite_id + 19
    } else {
        sig.satellite_id as int
    };
    &&& o.sat.0@[0] == letter(gnss)
    &&& (o.sat.0@[1] - 0x30) * 10 + (o.sat.0@[2] - 0x30) == n
    &&& 0x30 <= o.sat.0@[1] <= 0x39 && 0x30 <= o.sat.0@[2] <= 0x39
    &&& o.sig.0@[0] == 0x30 + sig.band
    &&& o.sig.0@[1] == sig.attribute
}

/// Whether the channel of a GLONASS satellite is known.
pub open spec fn on_channel<V>(gnss: Gnss, sat: SatData<V>) -> bool {
    gnss == Gnss::Glonass && (sat.glo_channel matches Some(c) && -7 <= c <= 6)
}

/// Whether the carrier of a signal is known: its band is one of the system, and a
/// GLONASS satellite has a channel.
pub open spec fn has_carrier<V>(gnss: Gnss, sat: SatData<V>, band: u8) -> bool {
    match gnss {
        Gnss::Gps => band == 1 || band == 2 || band == 5,
        Gnss::Glonass => (band == 1 || band == 2) && on_channel(gnss, sat),
        Gnss::Galileo => band == 1 || band == 5 || band == 6 || band == 7 || band == 8,
        Gnss::Sbas => band == 1 || band == 5,
        Gnss::Qzss => band == 1 || band == 2 || band == 5 || band == 6,
        Gnss::Beidou => band == 1 || band == 2 || band == 5 || band == 6 || band == 7,
        Gnss::Irnss => band == 5 || band == 9,
    }
}

/// Whether satellite `a` is the one that a signal belongs to: the first with its
/// number.
pub open spec fn belongs_to<V>(sats: Seq<SatData<V>>, sig: SigData<V>, a: int) -> bool {
    &&& 0 <= a < sats.len()
    &&& sats[a].satellite_id == sig.satellite_id
    &&& forall|b: int| 0 <= b < a ==> (#[trigger] sats[b]).satellite_id != sig.satellite_id
}

/// Whether the range of a signal is there.
pub open spec fn has_range<V, F, G>(
    sat: SatData<V>,
    sig: SigData<V>,
    cells: Seq<CellValues<F, G>>,
    i: int,
) -> bool {
    &&& sat.range_int is Some && sig.pseudorange is Some
    &&& i < cells.len() && cells[i].pr is Some
}

/// Whether the phase of a signal is there.
pub open spec fn has_phase<V, F, G>(
    gnss: Gnss,
    sat: SatData<V>,
    sig: SigData<V>,
    cells: Seq<CellValues<F, G>>,
    i: int,
) -> bool {
    &&& sat.range_int is Some && sig.phase_range is Some && has_carrier(gnss, sat, sig.band)
    &&& i < cells.len() && cells[i].cp is Some
}

/// Whether the Doppler shift of a signal is there: one of zero may be left out.
pub open spec fn has_doppler<V, F, G>(
    gnss: Gnss,
    sat: SatData<V>,
    sig: SigData<V>,
    cells: Seq<CellValues<F, G>>,
    opts: Options,
    i: int,
) -> bool {
    &&& sat.phase_rate is Some && sig.phase_rate is Some && has_carrier(gnss, sat, sig.band)
    &&& i < cells.len() && cells[i].dop is Some
    &&& !(opts.omit_zero_do && cells[i].dop_is_zero)
}

/// Whether the strength of a signal is there.
pub open spec fn has_strength<V, F, G>(
    sig: SigData<V>,
    cells: Seq<CellValues<F, G>>,
    i: int,
) -> bool {
    sig.cnr is Some && i < cells.len() && cells[i].cn0 is Some
}

/// Whether signal `i` of satellite `a` gives an observation: it has a name and a
/// value.
pub open spec fn gives<V, F, G>(
    gnss: Gnss,
    sats: Seq<SatData<V>>,
    sigs: Seq<SigData<V>>,
    cells: Seq<CellValues<F, G>>,
    opts: Options,
    i: int,
    a: int,
) -> bool {
    &&& has_name(gnss, sigs[i])
    &&& belongs_to(sats, sigs[i], a)
    &&& {
        ||| has_range(sats[a], sigs[i], cells, i)
        ||| has_phase(gnss, sats[a], sigs[i], cells, i)
        ||| has_doppler(gnss, sats[a], sigs[i], cells, opts, i)
        ||| has_strength(sigs[i], cells, i)
    }
}

/// Whether an observation is that of signal `i` of satellite `a` at `t`: each of its
/// values is that of cell `i` where it is there, and absent where it is not.
pub open spec fn is_of<V, F, G>(
    t: GpsTime,
    gnss: Gnss,
    sats: Seq<SatData<V>>,
    sigs: Seq<SigData<V>>,
    cells: Seq<CellValues<F, G>>,
    opts: Options,
    i: int,
    a: int,
    o: SignalObservation<F, G>,
) -> bool {
    let sat = sats[a];
    let sig = sigs[i];
    &&& o.t == t
    &&& bears_name(gnss, sig, o)
    &&& o.v.pr == (if has_range(sat, sig, cells, i) { cells[i].pr } else { None })
    &&& o.v.cp == (if has_phase(gnss, sat, sig, cells, i) { cells[i].cp } else { None })
    &&& o.v.dop == (if has_doppler(gnss, sat, sig, cells, opts, i) { cells[i].dop } else { None })
    &&& o.v.cn0 == (if has_strength(sig, cells, i) { cells[i].cn0 } else { None })
    &&& o.v.frq == (if on_channel(gnss, sat) { sat.glo_channel } else { None })
    &&& o.v.hc == sig.half_cycle
    &&& !o.v.bt
    &&& o.v.arc == 0
    &&& o.v.ll ==> o.v.cp is Some
}

/// Whether observations are those of the first `n` signals of a message: one for each
/// that gives one, in their order. Observation `j` is that of signal `from[j].0`, of
/// satellite `from[j].1`.
pub open spec fn are_of<V, F, G>(
    t: GpsTime,
    gnss: Gnss,
    sats: Seq<SatData<V>>,
    sigs: Seq<SigData<V>>,
    cells: Seq<CellValues<F, G>>,
    opts: Options,
    n: int,
    from: Seq<(int, int)>,
    os: Seq<SignalObservation<F, G>>,
) -> bool {
    &&& from.len() == os.len()
    &&& forall|j: int|
        0 <= j < from.len() ==> {
            let (i, a) = #[trigger] from[j];
            &&& 0 <= i < n
            &&& gives(gnss, sats, sigs, cells, opts, i, a)
            &&& is_of(t, gnss, sats, sigs, cells, opts, i, a, os[j])
        }
    &&& forall|j: int, k: int| 0 <= j < k < from.len() ==> (#[trigger] from[j]).0 < (#[trigger] from[k]).0
    &&& forall|i: int, a: int|
        0 <= i < n && #[trigger] gives(gnss, sats, sigs, cells, opts, i, a) ==> from.contains(
            (i, a),
        )
}

/// Whether signal `i` is the first of its satellite and code.
pub open spec fn first_of_name<V>(sigs: Seq<SigData<V>>, i: int) -> bool {
    forall|k: int|
        0 <= k < i ==> (#[trigger] sigs[k]).satellite_id != sigs[i].satellite_id || sigs[k].band
            != sigs[i].band || sigs[k].attribute != sigs[i].attribute
}

/// Whether loss of lock is flagged where there is a phase and the signal has slipped
/// since what was known of it before the message.
pub open spec fn flagged_from<V, F, G>(
    tr: Tracks,
    sigs: Seq<SigData<V>>,
    from: Seq<(int, int)>,
    os: Seq<SignalObservation<F, G>>,
) -> bool {
    forall|j: int|
        0 <= j < from.len() && first_of_name(sigs, (#[trigger] from[j]).0) ==> os[j].v.ll == (
        os[j].v.cp is Some && tr.slipped(
            SignalKey { sat: os[j].sat, sig: os[j].sig },
            sigs[from[j].0].lock,
        ))
}

/// Whether a message whose epoch is `t` was converted: the sink received the
/// observations of its signals, of all of them unless it refused one.
pub open spec fn signals_received<V, F, G, S: Sink<F, G>>(
    pre: Converter<S>,
    t: GpsTime,
    gnss: Gnss,
    sats: Seq<SatData<V>>,
    sigs: Seq<SigData<V>>,
    cells: Seq<CellValues<F, G>>,
    post: Converter<S>,
    r: Result<bool>,
    n: int,
    from: Seq<(int, int)>,
    os: Seq<SignalObservation<F, G>>,
) -> bool {
    &&& 0 <= n <= sigs.len()
    &&& are_of(t, gnss, sats, sigs, cells, pre.options(), n, from, os)
    &&& flagged_from(pre.tracks(), sigs, from, os)
    &&& forall|g: Gnss| #[trigger]
        post.last_epoch(g) == (if g == gnss { Some(t) } else { pre.last_epoch(g) })
    &&& match r {
        Ok(any) => {
            &&& n == sigs.len()
            &&& any == (os.len() > 0)
            &&& received::<F, G, S>(pre.target(), os, post.target(), Ok(()))
        },
        Err(e) => received::<F, G, S>(pre.target(), os, post.target(), Err(e)),
    }
}

proof fn lemma_sat_index<V>(sats: Seq<SatData<V>>, id: u8, k: int)
    requires
        0 <= k <= sats.len(),
        forall|b: int| 0 <= b < k ==> (#[trigger] sats[b]).satellite_id != id,
    ensures
        k <= sat_index(sats, id, k) <= sats.len(),
        forall|b: int|
            0 <= b < sat_index(sats, id, k) ==> (#[trigger] sats[b]).satellite_id != id,
        sat_index(sats, id, k) < sats.len() ==> sats[sat_index(sats, id, k)].satellite_id == id,
    decreases sats.len() - k,
{
    if k < sats.len() && sats[k].satellite_id != id {
        lemma_sat_index(sats, id, k + 1);
    }
}

/// A cell gives the observation that it should, or none.
proof fn lemma_cell<V, F, G>(
    tr: Tracks,
    t: GpsTime,
    gnss: Gnss,
    sats: Seq<SatData<V>>,
    sigs: Seq<SigData<V>>,
    cells: Seq<CellValues<F, G>>,
    opts: Options,
    i: int,
    a: int,
)
    requires
        0 <= i < sigs.len(),
        belongs_to(sats, sigs[i], a),
    ensures
        match cell_step(tr, t, gnss, sats[a], sigs[i], cell_at(cells, i), opts).1 {
            None => !gives(gnss, sats, sigs, cells, opts, i, a),
            Some(o) => gives(gnss, sats, sigs, cells, opts, i, a) && is_of(
                t,
                gnss,
                sats,
                sigs,
                cells,
                opts,
                i,
                a,
                o,
            ),
        },
{
    let sig = sigs[i];
    let code = crate::obs::SigId([(0x30 + sig.band) as u8, sig.attribute]);
    assert(code.0@[0] == (0x30 + sig.band) as u8 && code.0@[1] == sig.attribute);
    assert(has_name(gnss, sig) <==> cell_key(gnss, sats[a].satellite_id, sig) is Some);
}

/// A signal that is the first of its satellite and code shares its name with none
/// before it.
proof fn lemma_first_name<V>(gnss: Gnss, sigs: Seq<SigData<V>>, n: int)
    requires
        0 <= n < sigs.len(),
        first_of_name(sigs, n),
        cell_key(gnss, sigs[n].satellite_id, sigs[n]) is Some,
    ensures
        forall|i: int|
            0 <= i < n ==> cell_key(gnss, (#[trigger] sigs[i]).satellite_id, sigs[i]) != cell_key(
                gnss,
                sigs[n].satellite_id,
                sigs[n],
            ),
{
    let b = sigs[n];
    let kb = cell_key(gnss, b.satellite_id, b)->0;
    assert(kb.sig.0@[0] == (0x30 + b.band) as u8 && kb.sig.0@[1] == b.attribute);
    assert forall|i: int| 0 <= i < n implies cell_key(
        gnss,
        (#[trigger] sigs[i]).satellite_id,
        sigs[i],
    ) != Some(kb) by {
        let a = sigs[i];
        if cell_key(gnss, a.satellite_id, a) == Some(kb) {
            let ka = cell_key(gnss, a.satellite_id, a)->0;
            assert(ka.sig.0@[0] == (0x30 + a.band) as u8 && ka.sig.0@[1] == a.attribute);
            assert(ka.sat.0@[1] == kb.sat.0@[1] && ka.sat.0@[2] == kb.sat.0@[2]);
        }
    }
}

/// What is known of a signal is kept by the cells of other signals.
proof fn lemma_tracks_kept<V, F, G>(
    tr: Tracks,
    t: GpsTime,
    gnss: Gnss,
    sats: Seq<SatData<V>>,
    sigs: Seq<SigData<V>>,
    cells: Seq<CellValues<F, G>>,
    opts: Options,
    n: int,
    k: SignalKey,
)
    requires
        0 <= n <= sigs.len(),
        forall|i: int|
            0 <= i < n ==> cell_key(gnss, (#[trigger] sigs[i]).satellite_id, sigs[i]) != Some(k),
    ensures
        cells_done(tr, t, gnss, sats, sigs, cells, opts, n).0.lock_of(k) == tr.lock_of(k),
        cells_done(tr, t, gnss, sats, sigs, cells, opts, n).0.slip_waits(k) == tr.slip_waits(k),
    decreases n,
{
    if n > 0 {
        lemma_tracks_kept(tr, t, gnss, sats, sigs, cells, opts, n - 1, k);
        let at = sat_index(sats, sigs[n - 1].satellite_id, 0);
        lemma_sat_index(sats, sigs[n - 1].satellite_id, 0);
        let other = cell_key(gnss, sigs[n - 1].satellite_id, sigs[n - 1]);
        if other is Some {
            crate::obs::lemma_key_number_unique(other->0, k);
        }
    }
}

/// The observations of the first `n` cells are those of the first `n` signals.
proof fn lemma_cells<V, F, G>(
    tr: Tracks,
    t: GpsTime,
    gnss: Gnss,
    sats: Seq<SatData<V>>,
    sigs: Seq<SigData<V>>,
    cells: Seq<CellValues<F, G>>,
    opts: Options,
    n: int,
) -> (from: Seq<(int, int)>)
    requires
        0 <= n <= sigs.len(),
    ensures
        are_of(
            t,
            gnss,
            sats,
            sigs,
            cells,
            opts,
            n,
            from,
            cells_done(tr, t, gnss, sats, sigs, cells, opts, n).1,
        ),
        flagged_from(tr, sigs, from, cells_done(tr, t, gnss, sats, sigs, cells, opts, n).1),
    decreases n,
{
    if n <= 0 {
        Seq::empty()
    } else {
        let before = lemma_cells(tr, t, gnss, sats, sigs, cells, opts, n - 1);
        let (tr1, os) = cells_done(tr, t, gnss, sats, sigs, cells, opts, n - 1);
        let at = sat_index(sats, sigs[n - 1].satellite_id, 0);
        lemma_sat_index(sats, sigs[n - 1].satellite_id, 0);
        let next = cells_done(tr, t, gnss, sats, sigs, cells, opts, n).1;
        assert forall|a: int, b: int|
            #[trigger] belongs_to(sats, sigs[n - 1], a) && #[trigger] belongs_to(
                sats,
                sigs[n - 1],
                b,
            ) implies a == b by {
            if a < b {
                assert(sats[a].satellite_id == sigs[n - 1].satellite_id);
            } else if b < a {
                assert(sats[b].satellite_id == sigs[n - 1].satellite_id);
            }
        }
        let from = if at < sats.len() && gives(gnss, sats, sigs, cells, opts, n - 1, at) {
            before.push((n - 1, at))
        } else {
            before
        };
        if at < sats.len() {
            lemma_cell(tr1, t, gnss, sats, sigs, cells, opts, n - 1, at);
            let k = cell_key(gnss, sats[at].satellite_id, sigs[n - 1]);
            if k is Some && first_of_name(sigs, n - 1) {
                lemma_first_name(gnss, sigs, n - 1);
                lemma_tracks_kept(tr, t, gnss, sats, sigs, cells, opts, n - 1, k->0);
            }
        } else {
            assert forall|a: int| !#[trigger] belongs_to(sats, sigs[n - 1], a) by {}
        }
        assert forall|i: int, a: int|
            0 <= i < n && #[trigger] gives(
                gnss,
                sats,
                sigs,
                cells,
                opts,
                i,
                a,
            ) implies from.contains((i, a)) by {
            if i < n - 1 {
                assert(before.contains((i, a)));
                let j = choose|j: int| 0 <= j < before.len() && before[j] == (i, a);
                assert(from[j] == (i, a));
            } else {
                assert(a == at);
                assert(from[before.len() as int] == (i, a));
            }
        }
        assert forall|j: int| 0 <= j < from.len() implies ({
            let (i, a) = #[trigger] from[j];
            &&& 0 <= i < n
            &&& gives(gnss, sats, sigs, cells, opts, i, a)
            &&& is_of(t, gnss, sats, sigs, cells, opts, i, a, next[j])
        }) by {
            if j < before.len() {
                assert(from[j] == before[j]);
            }
        }
        assert forall|j: int|
            0 <= j < from.len() && first_of_name(sigs, (#[trigger] from[j]).0) implies next[j].v.ll
            == (next[j].v.cp is Some && tr.slipped(
            SignalKey { sat: next[j].sat, sig: next[j].sig },
            sigs[from[j].0].lock,
        )) by {
            if j < before.len() {
                assert(from[j] == before[j]);
                assert(next[j] == os[j]);
            }
        }
        assert forall|j: int, k: int| 0 <= j < k < from.len() implies (#[trigger] from[j]).0 < (
        #[trigger] from[k]).0 by {
            assert(from[j] == before[j]);
            if k < before.len() {
                assert(from[k] == before[k]);
            }
        }
        from
    }
}

/// What converting an observation message does: either its epoch cannot be resolved
/// and nothing happens, or the sink receives the observations of its signals, each
/// with the values of its own cell alone.
pub proof fn lemma_signals_carry_their_cells<V: Copy, F: Copy, G: Copy, S: Sink<F, G>>(
    gnss: Gnss,
    epoch: u32,
    sats: Vec<SatData<V>>,
    sigs: Vec<SigData<V>>,
    numbers: &Numbers<F, G>,
    week: TimeInterval,
    r: Result<bool>,
)
    ensures
        forall|c: &mut Converter<S>| #[trigger]
            call_ensures(
                Converter::<S>::convert_message::<V, F, G>,
                (c, &Message::Msm { gnss, epoch, sats, sigs }, numbers, week),
                r,
            ) ==> message_observed(
                *c,
                gnss,
                epoch,
                sats@,
                sigs@,
                numbers.cells@,
                week,
                *final(c),
                r,
            ),
{
    assert forall|c: &mut Converter<S>| #[trigger]
        call_ensures(
            Converter::<S>::convert_message::<V, F, G>,
            (c, &Message::Msm { gnss, epoch, sats, sigs }, numbers, week),
            r,
        ) implies message_observed(
        *c,
        gnss,
        epoch,
        sats@,
        sigs@,
        numbers.cells@,
        week,
        *final(c),
        r,
    ) by {
        let msg = Message::Msm { gnss, epoch, sats, sigs };
        assert(message_converted(*c, msg@, numbers@, week, *final(c), r));
        lemma_message_observed(
            *c,
            gnss,
            epoch,
            sats@,
            sigs@,
            numbers@,
            week,
            *final(c),
            r,
        );
    }
}

/// Whether an observation message was converted at some epoch, or nothing happened
/// because its epoch cannot be resolved.
pub open spec fn message_observed<V, F, G, S: Sink<F, G>>(
    pre: Converter<S>,
    gnss: Gnss,
    epoch: u32,
    sats: Seq<SatData<V>>,
    sigs: Seq<SigData<V>>,
    cells: Seq<CellValues<F, G>>,
    week: TimeInterval,
    post: Converter<S>,
    r: Result<bool>,
) -> bool {
    ||| {
        &&& r is Err && post.target() == pre.target()
        &&& exists|e: Error| #[trigger] epoch_resolved(pre, epoch, gnss, week, Err(e))
    }
    ||| exists|t: GpsTime| #[trigger]
        epoch_resolved(pre, epoch, gnss, week, Ok(t)) && observed_at(
            pre,
            t,
            gnss,
            sats,
            sigs,
            cells,
            post,
            r,
        )
}

/// Whether a message was converted at `t`.
pub open spec fn observed_at<V, F, G, S: Sink<F, G>>(
    pre: Converter<S>,
    t: GpsTime,
    gnss: Gnss,
    sats: Seq<SatData<V>>,
    sigs: Seq<SigData<V>>,
    cells: Seq<CellValues<F, G>>,
    post: Converter<S>,
    r: Result<bool>,
) -> bool {
    exists|n: int, from: Seq<(int, int)>, os: Seq<SignalObservation<F, G>>| #[trigger]
        signals_received(pre, t, gnss, sats, sigs, cells, post, r, n, from, os)
}

proof fn lemma_message_observed<V, F, G, S: Sink<F, G>>(
    pre: Converter<S>,
    gnss: Gnss,
    epoch: u32,
    sats: Seq<SatData<V>>,
    sigs: Seq<SigData<V>>,
    numbers: NumbersView<F, G>,
    week: TimeInterval,
    post: Converter<S>,
    r: Result<bool>,
)
    requires
        message_converted(
            pre,
            (MessageView::Msm { gnss, epoch, sats, sigs }),
            numbers,
            week,
            post,
            r,
        ),
    ensures
        message_observed(pre, gnss, epoch, sats, sigs, numbers.cells, week, post, r),
{
    let cells = numbers.cells;
    assert(epoch_converted(pre, gnss, epoch, sats, sigs, cells, week, post, r));
    let t = choose|t: Result<GpsTime>|
        {
            &&& #[trigger] epoch_resolved(pre, epoch, gnss, week, t)
            &&& match t {
                Err(e) => {
                    &&& r == Err::<bool, Error>(e)
                    &&& post.target() == pre.target()
                    &&& post.epochs() == pre.epochs()
                    &&& post.tracks() == pre.tracks()
                },
                Ok(t) => msm_converted(pre, t, gnss, sats, sigs, cells, post, r),
            }
        };
    match t {
        Err(e) => {
            assert(epoch_resolved(pre, epoch, gnss, week, Err(e)));
        },
        Ok(t) => {
            assert(epoch_resolved(pre, epoch, gnss, week, Ok(t)));
            let (n, sent) = choose|n: int, sent: Result<()>| #[trigger]
                cells_sent(pre, t, gnss, sats, sigs, cells, post, r, n, sent);
            let from = lemma_cells(pre.tracks(), t, gnss, sats, sigs, cells, pre.options(), n);
            let os = cells_done(pre.tracks(), t, gnss, sats, sigs, cells, pre.options(), n).1;
            crate::sink::lemma_plain_ok(sent);
            assert forall|g: Gnss| #[trigger]
                post.last_epoch(g) == (if g == gnss { Some(t) } else { pre.last_epoch(g) }) by {
                assert(letter(g) == letter(gnss) <==> g == gnss);
                assert(crate::rtcm::gnss_number(g) == letter(g) as u64);
                assert(crate::rtcm::gnss_number(gnss) == letter(gnss) as u64);
            }
            assert(signals_received(pre, t, gnss, sats, sigs, cells, post, r, n, from, os));
            assert(observed_at(pre, t, gnss, sats, sigs, cells, post, r));
        },
    }
}

/// Of two messages that differ in the values of one cell alone, all other signals
/// give the same observations, where no satellite has a signal twice.
pub proof fn lemma_other_cells_do_not_matter<V, F, G>(
    tr: Tracks,
    t: GpsTime,
    gnss: Gnss,
    sats: Seq<SatData<V>>,
    sigs: Seq<SigData<V>>,
    x: Seq<CellValues<F, G>>,
    y: Seq<CellValues<F, G>>,
    opts: Options,
    from_x: Seq<(int, int)>,
    from_y: Seq<(int, int)>,
    os_x: Seq<SignalObservation<F, G>>,
    os_y: Seq<SignalObservation<F, G>>,
    changed: int,
    j: int,
)
    requires
        x.len() == y.len(),
        forall|i: int| 0 <= i < x.len() && i != changed ==> x[i] == y[i],
        forall|i: int| 0 <= i < sigs.len() ==> #[trigger] first_of_name(sigs, i),
        are_of(t, gnss, sats, sigs, x, opts, sigs.len() as int, from_x, os_x),
        are_of(t, gnss, sats, sigs, y, opts, sigs.len() as int, from_y, os_y),
        flagged_from(tr, sigs, from_x, os_x),
        flagged_from(tr, sigs, from_y, os_y),
        0 <= j < os_x.len(),
        from_x[j].0 != changed,
    ensures
        exists|k: int| 0 <= k < os_y.len() && from_y[k] == from_x[j] && #[trigger] os_y[k] == os_x[j],
{
    let (i, a) = from_x[j];
    assert(gives(gnss, sats, sigs, y, opts, i, a));
    assert(from_y.contains((i, a)));
    let k = choose|k: int| 0 <= k < from_y.len() && from_y[k] == (i, a);
    let p = os_x[j];
    let q = os_y[k];
    assert(is_of(t, gnss, sats, sigs, x, opts, i, a, p));
    assert(is_of(t, gnss, sats, sigs, y, opts, i, a, q));
    assert(p.sat.0 =~= q.sat.0);
    assert(p.sig.0 =~= q.sig.0);
    assert(first_of_name(sigs, i));
    assert(p == q);
}

/// What converting a frame with an observation message does.
pub proof fn lemma_frame_signals<F: Copy, G: Copy, S: Sink<F, G>>(
    frame: &[u8],
    numbers: &Numbers<F, G>,
    week: TimeInterval,
    r: Result<bool>,
)
    ensures
        forall|c: &mut Converter<S>| #[trigger]
            call_ensures(
                Converter::<S>::convert_frame::<F, G>,
                (c, frame, numbers, week),
                r,
            ) && frame_valid(frame@) ==> (message_in(frame@) matches MessageView::Msm {
                gnss,
                epoch,
                sats,
                sigs,
            } ==> message_observed(
                *c,
                gnss,
                epoch,
                sats,
                sigs,
                numbers.cells@,
                week,
                *final(c),
                r,
            )),
        forall|c: &mut Converter<S>| #[trigger]
            call_ensures(
                Converter::<S>::convert_frame::<F, G>,
                (c, frame, numbers, week),
                r,
            ) && !frame_valid(frame@) ==> {
                &&& r == Ok::<bool, Error>(false)
                &&& final(c).target() == (*c).target()
                &&& final(c).tracks() == (*c).tracks()
                &&& final(c).epochs() == (*c).epochs()
                &&& final(c).leap() == (*c).leap()
            },
{
    assert forall|c: &mut Converter<S>| #[trigger]
        call_ensures(Converter::<S>::convert_frame::<F, G>, (c, frame, numbers, week), r)
            && frame_valid(frame@) implies (message_in(frame@) matches MessageView::Msm {
        gnss,
        epoch,
        sats,
        sigs,
    } ==> message_observed(
        *c,
        gnss,
        epoch,
        sats,
        sigs,
        numbers.cells@,
        week,
        *final(c),
        r,
    )) by {
        if let MessageView::Msm { gnss, epoch, sats, sigs } = message_in(frame@) {
            lemma_message_observed(*c, gnss, epoch, sats, sigs, numbers@, week, *final(c), r);
        }
    }
}

// ---- slips ----

/// After a cell with a phase, the next of the same signal is flagged exactly where it
/// has a phase and its lock-time indicator went back or stands at 0 as before.
pub proof fn lemma_slip_after_phase<S, V>(
    mid: Converter<S>,
    sat: SatId,
    sig: SigId,
    first: &SigData<V>,
    second: &SigData<V>,
    has_phase: bool,
    r1: (bool, bool),
    r2: (bool, bool),
)
    ensures
        forall|c: &mut Converter<S>| #[trigger]
            call_ensures(Converter::<S>::slip_hc::<V>, (c, sat, sig, first, true), r1) && *final(c)
                == mid ==> r1.1 == first.half_cycle && slips_next(
                mid,
                sat,
                sig,
                second,
                has_phase,
                has_phase && (second.lock < first.lock || (second.lock == 0 && first.lock == 0)),
                r2,
            ),
{
}

/// Whether a cell of a signal is flagged exactly where `flag` holds.
pub open spec fn slips_next<S, V>(
    mid: Converter<S>,
    sat: SatId,
    sig: SigId,
    cell: &SigData<V>,
    has_phase: bool,
    flag: bool,
    r: (bool, bool),
) -> bool {
    forall|d: &mut Converter<S>| #[trigger]
        call_ensures(Converter::<S>::slip_hc::<V>, (d, sat, sig, cell, has_phase), r) && *d == mid
            ==> r == (flag, cell.half_cycle)
}

/// A slip of a cell without a phase is flagged at the next that has one: where the
/// first would have been flagged with a phase, the second is.
pub proof fn lemma_slip_waits_for_phase<S, V>(
    pre: Converter<S>,
    mid: Converter<S>,
    sat: SatId,
    sig: SigId,
    first: &SigData<V>,
    second: &SigData<V>,
    has_phase: bool,
    with_phase: (bool, bool),
    r1: (bool, bool),
    r2: (bool, bool),
)
    ensures
        ({
            let slipped = pre.tracks().slipped((SignalKey { sat, sig }), first.lock);
            &&& slips_next(pre, sat, sig, first, true, slipped, with_phase)
            &&& forall|c: &mut Converter<S>| #[trigger]
                call_ensures(Converter::<S>::slip_hc::<V>, (c, sat, sig, first, false), r1) && *c
                    == pre && *final(c) == mid ==> !r1.0 && slips_next(
                    mid,
                    sat,
                    sig,
                    second,
                    has_phase,
                    has_phase && (slipped || second.lock < first.lock || (second.lock == 0
                        && first.lock == 0)),
                    r2,
                )
        }),
{
}

/// The first cell of a signal is flagged exactly where it has a phase and its
/// lock-time indicator is 0.
pub proof fn lemma_first_slip<S, V>(
    sink: S,
    opts: Options,
    new: Converter<S>,
    sat: SatId,
    sig: SigId,
    cell: &SigData<V>,
    has_phase: bool,
    r: (bool, bool),
)
    requires
        call_ensures(Converter::<S>::new, (sink, opts), new),
    ensures
        slips_next(new, sat, sig, cell, has_phase, has_phase && cell.lock == 0, r),
{
}

/// A cell of one signal tells nothing of another.
pub proof fn lemma_slips_are_separate<S, V>(
    pre: Converter<S>,
    mid: Converter<S>,
    sat: SatId,
    sig: SigId,
    cell: &SigData<V>,
    has_phase: bool,
    r: (bool, bool),
    other: SignalKey,
    lock: u16,
)
    requires
        other != (SignalKey { sat, sig }),
    ensures
        forall|c: &mut Converter<S>| #[trigger]
            call_ensures(Converter::<S>::slip_hc::<V>, (c, sat, sig, cell, has_phase), r) && *c
                == pre && *final(c) == mid ==> {
                &&& mid.tracks().slipped(other, lock) == pre.tracks().slipped(other, lock)
                &&& mid.target() == pre.target()
            },
{
    crate::obs::lemma_key_number_unique(other, (SignalKey { sat, sig }));
}

// ---- epochs ----

/// The milliseconds into the GPS week that the epoch field of a message tells, where
/// it tells them: BeiDou time is 14 seconds behind GPS time. A GLONASS field has the
/// day in its bits from 27 on and the time of day in Moscow, three hours ahead of UTC,
/// below.
pub open spec fn told_ms(gnss: Gnss, epoch: u32, leap_ms: int, ms: int) -> bool {
    match gnss {
        Gnss::Glonass => {
            let day = epoch as int / 134_217_728;
            let tod = epoch as int % 134_217_728;
            &&& day <= 6 && tod < 86_400_000
            &&& ms == day * 86_400_000 + tod - 10_800_000 + leap_ms
        },
        Gnss::Beidou => epoch < 604_800_000 && ms == epoch + 14_000,
        _ => epoch < 604_800_000 && ms == epoch,
    }
}

/// Whether a GLONASS epoch field tells a time of day without the day.
pub open spec fn told_without_day(epoch: u32) -> bool {
    epoch as int / 134_217_728 == 7 && epoch as int % 134_217_728 < 86_400_000
}

/// Whether a tick is at a millisecond that is `ms` into a period of `period` of them.
pub open spec fn falls_at(t: GpsTime, ms: int, period: int) -> bool {
    exists|w: int| t.0 == #[trigger] (w * period + ms) * 10_000
}

/// Whether a tick lies in an interval.
pub open spec fn lies_in(t: GpsTime, week: TimeInterval) -> bool {
    week.start_ns <= t.0 * 100 < week.start_ns + week.dur_ns
}

proof fn lemma_one_offset(os: Seq<i64>, off: int, week: TimeInterval, r: Result<GpsTime>)
    requires
        as_ints(os) == seq![off],
        week.dur_ns == 604_800_000_000_000,
        week_resolved(os, week, r),
    ensures
        r matches Ok(t) && lies_in(t, week) && falls_at(t, off, 604_800_000),
{
    assert(as_ints(os)[0] == off);
    assert(as_ints(os).len() == os.len());
    assert(os.len() == 1 && os[0] == off);
    let start = week.start_ns as int;
    let p: int = 604_800_000_000_000;
    let w = (start - off * 1_000_000 + p - 1) / p;
    let u = (w * 604_800_000 + off) * 10_000;
    assert(start <= u * 100 < start + p);
    assert(week.holds(u));
    lemma_candidates_complete(os, week, u, 0, w);
    match r {
        Ok(t) => {
            assert(t.0 == u);
            assert(t.0 == (w * 604_800_000 + off) * 10_000);
        },
        Err(_) => {
            if exists|u: int, v: int|
                u != v && #[trigger] matches_week(os, week, u) && #[trigger] matches_week(
                    os,
                    week,
                    v,
                ) {
                let (a, b) = choose|u: int, v: int|
                    u != v && #[trigger] matches_week(os, week, u) && #[trigger] matches_week(
                        os,
                        week,
                        v,
                    );
                let (k, i) = choose|k: int, i: int|
                    0 <= k < os.len() && -1 <= i <= 2 && a == #[trigger] week_tick(
                        start,
                        os[k] as int,
                        i,
                    );
                let (l, j) = choose|k: int, i: int|
                    0 <= k < os.len() && -1 <= i <= 2 && b == #[trigger] week_tick(
                        start,
                        os[k] as int,
                        i,
                    );
                assert(k == 0 && l == 0);
                assert(i == j);
            }
        },
    }
}

/// A message with a constraint of one week is converted at the one time in it that its
/// epoch field tells.
pub proof fn lemma_epoch_in_week<S>(
    c: Converter<S>,
    epoch: u32,
    gnss: Gnss,
    week: TimeInterval,
    ms: int,
    r: Result<GpsTime>,
)
    requires
        told_ms(gnss, epoch, c.leap(), ms),
        week.dur_ns == 604_800_000_000_000,
        epoch_resolved(c, epoch, gnss, week, r),
    ensures
        r matches Ok(t) && lies_in(t, week) && falls_at(t, ms, 604_800_000),
{
    let s = epoch_offsets(gnss, epoch, c.leap())->0;
    assert(s =~= seq![ms]);
    let os = choose|os: Seq<i64>|
        #[trigger] as_ints(os) == s && time_resolved(
            os,
            week,
            c.last_epoch(gnss),
            c.last_week(),
            r,
        );
    lemma_one_offset(os, ms, week, r);
}

/// The first message of a system without a constraint is converted by the constraint
/// that came last.
pub proof fn lemma_last_week_holds<S>(
    c: Converter<S>,
    epoch: u32,
    gnss: Gnss,
    week: TimeInterval,
    ms: int,
    r: Result<GpsTime>,
)
    requires
        told_ms(gnss, epoch, c.leap(), ms),
        week.dur_ns == 0,
        c.last_epoch(gnss) is None,
        c.last_week().dur_ns == 604_800_000_000_000,
        epoch_resolved(c, epoch, gnss, week, r),
    ensures
        r matches Ok(t) && lies_in(t, c.last_week()) && falls_at(t, ms, 604_800_000),
{
    let s = epoch_offsets(gnss, epoch, c.leap())->0;
    assert(s =~= seq![ms]);
    let os = choose|os: Seq<i64>|
        #[trigger] as_ints(os) == s && time_resolved(
            os,
            week,
            c.last_epoch(gnss),
            c.last_week(),
            r,
        );
    lemma_one_offset(os, ms, c.last_week(), r);
}

/// A message without a constraint is converted at the time that its epoch field tells
/// and that lies within half a week of the last epoch of its system.
pub proof fn lemma_epoch_continues<S>(
    c: Converter<S>,
    epoch: u32,
    gnss: Gnss,
    week: TimeInterval,
    ms: int,
    r: Result<GpsTime>,
)
    requires
        told_ms(gnss, epoch, c.leap(), ms),
        0 <= c.leap() <= 255_000,
        week.dur_ns == 0,
        c.last_epoch(gnss) matches Some(p) && 0 <= p.0 <= 9_000_000_000_000_000_000,
        epoch_resolved(c, epoch, gnss, week, r),
    ensures
        r matches Ok(t) && falls_at(t, ms, 604_800_000) && -302_400_000 <= t.0 as int / 10_000
            - (c.last_epoch(gnss)->0).0 as int / 10_000 <= 302_400_000,
{
    let p = c.last_epoch(gnss)->0;
    let s = epoch_offsets(gnss, epoch, c.leap())->0;
    assert(s =~= seq![ms]);
    let os = choose|os: Seq<i64>|
        #[trigger] as_ints(os) == s && time_resolved(
            os,
            week,
            c.last_epoch(gnss),
            c.last_week(),
            r,
        );
    assert(as_ints(os)[0] == ms);
    assert(as_ints(os).len() == os.len());
    assert(os.len() == 1 && os[0] == ms);
    let k = choose|k: int|
        nearest_at(os, p, k) && r == Ok::<GpsTime, Error>(
            GpsTime((#[trigger] candidate_after(os, p, k) * 10_000) as i64),
        );
    assert(k == 0);
    let prev = p.0 as int / 10_000;
    let w = prev / 604_800_000;
    let x = candidate_after(os, p, 0);
    assert(x == w * 604_800_000 + ms || x == (w + 1) * 604_800_000 + ms || x == (w - 1)
        * 604_800_000 + ms);
    assert(-302_400_000 <= x - prev <= 302_400_000);
    assert(r->Ok_0.0 == x * 10_000);
    assert(r->Ok_0.0 == (w * 604_800_000 + ms) * 10_000 || r->Ok_0.0 == ((w + 1) * 604_800_000 + ms)
        * 10_000 || r->Ok_0.0 == ((w - 1) * 604_800_000 + ms) * 10_000);
}

/// A message without a constraint is refused where none came before and its system had
/// no epoch yet; and one whose epoch field is not a time is refused in any case.
pub proof fn lemma_epoch_refused<S>(
    c: Converter<S>,
    epoch: u32,
    gnss: Gnss,
    week: TimeInterval,
    r: Result<GpsTime>,
)
    requires
        epoch_resolved(c, epoch, gnss, week, r),
    ensures
        week.dur_ns == 0 && c.last_epoch(gnss) is None && c.last_week().dur_ns == 0 ==> r is Err,
        gnss == Gnss::Glonass && epoch as int % 134_217_728 >= 86_400_000 ==> r is Err,
        gnss != Gnss::Glonass && epoch >= 604_800_000 ==> r is Err,
{
}

proof fn lemma_seven_offsets(os: Seq<i64>, base: int, week: TimeInterval, r: Result<GpsTime>)
    requires
        os.len() == 7,
        forall|d: int| 0 <= d < 7 ==> #[trigger] os[d] == d * 86_400_000 + base,
        week.dur_ns == 86_400_000_000_000,
        week_resolved(os, week, r),
    ensures
        r matches Ok(t) && lies_in(t, week) && falls_at(t, base, 86_400_000),
{
    let start = week.start_ns as int;
    let p: int = 86_400_000_000_000;
    let q = (start - base * 1_000_000 + p - 1) / p;
    let u = (q * 86_400_000 + base) * 10_000;
    assert(start <= u * 100 < start + p);
    assert(week.holds(u));
    let w = q / 7;
    let d = q % 7;
    assert(os[d] == d * 86_400_000 + base);
    assert(u == (w * 604_800_000 + os[d]) * 10_000);
    lemma_candidates_complete(os, week, u, d, w);
    assert forall|a: int| #[trigger] matches_week(os, week, a) implies a == u by {
        let (k, i) = choose|k: int, i: int|
            0 <= k < os.len() && -1 <= i <= 2 && a == #[trigger] week_tick(start, os[k] as int, i);
        assert(os[k] == k * 86_400_000 + base);
        let x = ((start / 1_000_000) - os[k]) / 604_800_000 + i;
        assert(a == ((7 * x + k) * 86_400_000 + base) * 10_000);
        assert(start <= a * 100 < start + p);
        assert(7 * x + k == q);
    }
    match r {
        Ok(t) => {
            assert(t.0 == u);
            assert(t.0 == (q * 86_400_000 + base) * 10_000);
        },
        Err(_) => {},
    }
}

/// A GLONASS message that does not tell its day is converted, with a constraint of one
/// day, at the one time in it that has its time of day.
pub proof fn lemma_glonass_in_day<S>(
    c: Converter<S>,
    epoch: u32,
    week: TimeInterval,
    r: Result<GpsTime>,
)
    requires
        told_without_day(epoch),
        week.dur_ns == 86_400_000_000_000,
        epoch_resolved(c, epoch, Gnss::Glonass, week, r),
    ensures
        r matches Ok(t) && lies_in(t, week) && falls_at(
            t,
            epoch as int % 134_217_728 - 10_800_000 + c.leap(),
            86_400_000,
        ),
{
    let s = epoch_offsets(Gnss::Glonass, epoch, c.leap())->0;
    let base = epoch as int % 134_217_728 - 10_800_000 + c.leap();
    let os = choose|os: Seq<i64>|
        #[trigger] as_ints(os) == s && time_resolved(
            os,
            week,
            c.last_epoch(Gnss::Glonass),
            c.last_week(),
            r,
        );
    assert(os.len() == as_ints(os).len());
    assert forall|d: int| 0 <= d < 7 implies #[trigger] os[d] == d * 86_400_000 + base by {
        assert(as_ints(os)[d] == s[d]);
    }
    lemma_seven_offsets(os, base, week, r);
}

/// The week of a candidate that continues from an epoch.
proof fn lemma_candidate_week(os: Seq<i64>, p: GpsTime, k: int) -> (w: int)
    requires
        0 <= k < os.len(),
        -10_800_000 <= os[k] < 604_800_000,
        p.0 >= 0,
    ensures
        candidate_after(os, p, k) == w * 604_800_000 + os[k],
        -302_400_000 <= candidate_after(os, p, k) - p.0 as int / 10_000 <= 302_400_000,
{
    let prev = p.0 as int / 10_000;
    let w = prev / 604_800_000;
    let x = candidate_after(os, p, k);
    if x == w * 604_800_000 + os[k] {
        w
    } else if x == (w + 1) * 604_800_000 + os[k] {
        w + 1
    } else {
        w - 1
    }
}

/// The nearest of the candidates of seven days lies within half a day.
proof fn lemma_nearest_day(os: Seq<i64>, base: int, p: GpsTime, k: int) -> (q: int)
    requires
        os.len() == 7,
        forall|d: int| 0 <= d < 7 ==> #[trigger] os[d] == d * 86_400_000 + base,
        -10_800_000 <= base < 86_400_000,
        p.0 >= 0,
        nearest_at(os, p, k),
    ensures
        candidate_after(os, p, k) == q * 86_400_000 + base,
        -43_200_000 <= candidate_after(os, p, k) - p.0 as int / 10_000 <= 43_200_000,
{
    let prev = p.0 as int / 10_000;
    // The day that puts the time of day next to the last epoch.
    let q = (prev - base + 43_200_000) / 86_400_000;
    let near = q * 86_400_000 + base;
    assert(-43_200_000 <= near - prev <= 43_200_000);
    let d = q % 7;
    assert(os[d] == d * 86_400_000 + base);
    let v = lemma_candidate_week(os, p, d);
    assert(candidate_after(os, p, d) == near) by {
        assert(near == (q / 7) * 604_800_000 + os[d]);
        assert(v == q / 7);
    }
    assert(os[k] == k * 86_400_000 + base);
    let w = lemma_candidate_week(os, p, k);
    assert(w * 604_800_000 + os[k] == (7 * w + k) * 86_400_000 + base);
    7 * w + k
}

/// A GLONASS message that does not tell its day is converted, without a constraint, at
/// the time with its time of day that lies within half a day of the last epoch.
pub proof fn lemma_glonass_continues<S>(
    c: Converter<S>,
    epoch: u32,
    week: TimeInterval,
    r: Result<GpsTime>,
)
    requires
        told_without_day(epoch),
        0 <= c.leap() <= 255_000,
        week.dur_ns == 0,
        c.last_epoch(Gnss::Glonass) matches Some(p) && 0 <= p.0 <= 9_000_000_000_000_000_000,
        epoch_resolved(c, epoch, Gnss::Glonass, week, r),
    ensures
        r matches Ok(t) && falls_at(
            t,
            epoch as int % 134_217_728 - 10_800_000 + c.leap(),
            86_400_000,
        ) && -43_200_000 <= t.0 as int / 10_000 - (c.last_epoch(Gnss::Glonass)->0).0 as int / 10_000
            <= 43_200_000,
{
    let p = c.last_epoch(Gnss::Glonass)->0;
    let s = epoch_offsets(Gnss::Glonass, epoch, c.leap())->0;
    let base = epoch as int % 134_217_728 - 10_800_000 + c.leap();
    let os = choose|os: Seq<i64>|
        #[trigger] as_ints(os) == s && time_resolved(
            os,
            week,
            c.last_epoch(Gnss::Glonass),
            c.last_week(),
            r,
        );
    assert(os.len() == as_ints(os).len());
    assert forall|d: int| 0 <= d < 7 implies #[trigger] os[d] == d * 86_400_000 + base by {
        assert(as_ints(os)[d] == s[d]);
    }
    let k = choose|k: int|
        nearest_at(os, p, k) && r == Ok::<GpsTime, Error>(
            GpsTime((#[trigger] candidate_after(os, p, k) * 10_000) as i64),
        );
    let q = lemma_nearest_day(os, base, p, k);
    let t = r->Ok_0;
    assert(t.0 == candidate_after(os, p, k) * 10_000);
    assert(t.0 == (q * 86_400_000 + base) * 10_000);
}

// ---- metadata ----

/// The number that decimal digits stand for.
pub open spec fn digits_number(s: Seq<char>) -> int
    decreases s.len(),
{
    if s.len() == 0 {
        0
    } else {
        digits_number(s.drop_last()) * 10 + (s.last() as int - '0' as int)
    }
}

/// Whether a text is a number in decimal, without leading zeros.
pub open spec fn is_number(s: Seq<char>, n: int) -> bool {
    &&& s.len() > 0
    &&& forall|i: int| 0 <= i < s.len() ==> '0' <= #[trigger] s[i] <= '9'
    &&& s.len() > 1 ==> s[0] != '0'
    &&& digits_number(s) == n
}

proof fn lemma_number_text(n: nat)
    ensures
        is_number(number_text(n), n as int),
    decreases n,
{
    let s = number_text(n);
    if n < 10 {
        assert(s =~= seq![((0x30 + n) as u8) as char]);
        assert(s.drop_last() =~= Seq::empty());
        assert(digits_number(s.drop_last()) == 0);
    } else {
        let p = number_text(n / 10);
        lemma_number_text(n / 10);
        assert(s =~= p.push(((0x30 + n % 10) as u8) as char));
        assert(s.drop_last() =~= p);
        if p.len() == 1 {
            assert(p.drop_last() =~= Seq::empty());
            assert(digits_number(p.drop_last()) == 0);
            assert(digits_number(p) == p.last() as int - '0' as int);
        }
        assert forall|i: int| 0 <= i < s.len() implies '0' <= #[trigger] s[i] <= '9' by {
            if i < p.len() {
                assert(s[i] == p[i]);
            }
        }
        assert(s[0] == p[0]);
    }
}

proof fn lemma_station_number(station: u16)
    ensures
        is_number(marker_of(station).number, station as int),
{
    lemma_number_text(station as nat);
}

/// Whether a text is another without the spaces and NULs at its end.
pub open spec fn is_cleaned(s: Seq<char>, r: Seq<char>) -> bool {
    &&& r.len() <= s.len() && r == s.take(r.len() as int)
    &&& forall|i: int| r.len() <= i < s.len() ==> #[trigger] s[i] == ' ' || s[i] == '\0'
    &&& r.len() > 0 ==> r.last() != ' ' && r.last() != '\0'
}

proof fn lemma_is_cleaned(s: Seq<char>)
    ensures
        is_cleaned(s, cleaned(s)),
    decreases s.len(),
{
    if s.len() > 0 && (s.last() == ' ' || s.last() == '\0') {
        let p = s.drop_last();
        lemma_is_cleaned(p);
        let r = cleaned(s);
        assert(r =~= s.take(r.len() as int)) by {
            assert(p.take(r.len() as int) =~= s.take(r.len() as int));
        }
        assert forall|i: int| r.len() <= i < s.len() implies #[trigger] s[i] == ' ' || s[i]
            == '\0' by {
            if i < p.len() {
                assert(p[i] == s[i]);
            }
        }
    } else {
        assert(s.take(s.len() as int) =~= s);
    }
}

/// Whether a metadata record was handed on to the sink, whose answer came back.
pub open spec fn handed_on<F, G, S: Sink<F, G>>(
    pre: Converter<S>,
    m: MetadataView<F>,
    post: Converter<S>,
    r: Result<bool>,
) -> bool {
    exists|sent: Result<()>| #[trigger]
        S::metadata_step(pre.target(), m, post.target(), sent) && match sent {
            Ok(_) => r == Ok::<bool, Error>(true),
            Err(e) => r == Err::<bool, Error>(e),
        }
}

proof fn lemma_handed_on<F, G, S: Sink<F, G>>(
    pre: Converter<S>,
    m: MetadataView<F>,
    post: Converter<S>,
    r: Result<bool>,
)
    requires
        metadata_sent::<F, G, S>(pre, m, post, r),
    ensures
        handed_on::<F, G, S>(pre, m, post, r),
{
}

/// Whether metadata has the number of a station as that of its marker, and none of
/// what a message does not tell.
pub open spec fn names_station<F>(m: MetadataView<F>, station: u16) -> bool {
    &&& is_number(m.marker.number, station as int)
    &&& m.marker.name.len() == 0 && m.marker.type_.len() == 0
    &&& m.version.len() == 0 && m.observer.len() == 0 && m.agency.len() == 0
    &&& m.run.program.len() == 0 && m.run.by.len() == 0 && m.run.date is None
    &&& m.comment.len() == 0
    &&& m.interval is None
}

/// Whether metadata tells nothing of the antenna and the receiver.
pub open spec fn no_equipment<F>(m: MetadataView<F>) -> bool {
    &&& m.antenna.number.len() == 0 && m.antenna.type_.len() == 0
    &&& no_receiver(m)
}

/// Whether metadata tells nothing of the receiver.
pub open spec fn no_receiver<F>(m: MetadataView<F>) -> bool {
    m.receiver.number.len() == 0 && m.receiver.type_.len() == 0 && m.receiver.version.len() == 0
}

/// Whether metadata has this position and offset, and no leap seconds.
pub open spec fn is_placed<F>(
    m: MetadataView<F>,
    position: Option<[F; 3]>,
    delta: Option<[F; 3]>,
) -> bool {
    m.approx_position == position && m.antenna_delta == delta && m.leap_seconds is None
}

/// A message with a position gives it, with the number of the station.
pub proof fn lemma_position_told<V: Copy, F: Copy, G: Copy, S: Sink<F, G>>(
    station: u16,
    position: [V; 3],
    numbers: &Numbers<F, G>,
    week: TimeInterval,
    r: Result<bool>,
)
    ensures
        forall|c: &mut Converter<S>| #[trigger]
            call_ensures(
                Converter::<S>::convert_message::<V, F, G>,
                (c, &Message::Position { station, position }, numbers, week),
                r,
            ) ==> exists|m: MetadataView<F>| #[trigger]
                handed_on::<F, G, S>(*c, m, *final(c), r) && names_station(m, station) && no_equipment(m) && is_placed(m, numbers.position, None),
{
    assert forall|c: &mut Converter<S>| #[trigger]
        call_ensures(
            Converter::<S>::convert_message::<V, F, G>,
            (c, &Message::Position { station, position }, numbers, week),
            r,
        ) implies exists|m: MetadataView<F>| #[trigger]
        handed_on::<F, G, S>(*c, m, *final(c), r) && names_station(m, station) && no_equipment(m) && is_placed(m, numbers.position, None) by {
        let msg = Message::<V>::Position { station, position };
        let m = message_metadata(msg@, numbers@)->0;
        assert(message_converted(*c, msg@, numbers@, week, *final(c), r));
        lemma_handed_on::<F, G, S>(*c, m, *final(c), r);
        lemma_station_number(station);
    }
}

/// A message with a position and an antenna offset gives both.
pub proof fn lemma_height_told<V: Copy, F: Copy, G: Copy, S: Sink<F, G>>(
    station: u16,
    position: [V; 3],
    delta: [V; 3],
    numbers: &Numbers<F, G>,
    week: TimeInterval,
    r: Result<bool>,
)
    ensures
        forall|c: &mut Converter<S>| #[trigger]
            call_ensures(
                Converter::<S>::convert_message::<V, F, G>,
                (c, &Message::PositionHeight { station, position, delta }, numbers, week),
                r,
            ) ==> exists|m: MetadataView<F>| #[trigger]
                handed_on::<F, G, S>(*c, m, *final(c), r) && names_station(m, station) && no_equipment(m) && is_placed(m, numbers.position, numbers.delta),
{
    assert forall|c: &mut Converter<S>| #[trigger]
        call_ensures(
            Converter::<S>::convert_message::<V, F, G>,
            (c, &Message::PositionHeight { station, position, delta }, numbers, week),
            r,
        ) implies exists|m: MetadataView<F>| #[trigger]
        handed_on::<F, G, S>(*c, m, *final(c), r) && names_station(m, station) && no_equipment(m) && is_placed(m, numbers.position, numbers.delta) by {
        let msg = Message::<V>::PositionHeight { station, position, delta };
        let m = message_metadata(msg@, numbers@)->0;
        assert(message_converted(*c, msg@, numbers@, week, *final(c), r));
        lemma_handed_on::<F, G, S>(*c, m, *final(c), r);
        lemma_station_number(station);
    }
}

/// A message with an antenna gives its type and its serial number.
pub proof fn lemma_antenna_told<V: Copy, F: Copy, G: Copy, S: Sink<F, G>>(
    station: u16,
    descriptor: String,
    serial: String,
    numbers: &Numbers<F, G>,
    week: TimeInterval,
    r: Result<bool>,
)
    ensures
        forall|c: &mut Converter<S>| #[trigger]
            call_ensures(
                Converter::<S>::convert_message::<V, F, G>,
                (c, &Message::Antenna { station, descriptor, serial }, numbers, week),
                r,
            ) ==> exists|m: MetadataView<F>| #[trigger]
                handed_on::<F, G, S>(*c, m, *final(c), r) && names_station(m, station) && no_receiver(m) && is_placed(m, None, None) && is_cleaned(descriptor@, m.antenna.type_) && is_cleaned(serial@, m.antenna.number),
{
    assert forall|c: &mut Converter<S>| #[trigger]
        call_ensures(
            Converter::<S>::convert_message::<V, F, G>,
            (c, &Message::Antenna { station, descriptor, serial }, numbers, week),
            r,
        ) implies exists|m: MetadataView<F>| #[trigger]
        handed_on::<F, G, S>(*c, m, *final(c), r) && names_station(m, station) && no_receiver(m) && is_placed(m, None, None) && is_cleaned(descriptor@, m.antenna.type_) && is_cleaned(serial@, m.antenna.number) by {
        let msg = Message::<V>::Antenna { station, descriptor, serial };
        let m = message_metadata(msg@, numbers@)->0;
        assert(message_converted(*c, msg@, numbers@, week, *final(c), r));
        lemma_handed_on::<F, G, S>(*c, m, *final(c), r);
        lemma_station_number(station);
        lemma_is_cleaned(descriptor@);
        lemma_is_cleaned(serial@);
    }
}

/// A message with an antenna and a receiver gives the type and the serial number of
/// both and the version of the firmware.
pub proof fn lemma_equipment_told<V: Copy, F: Copy, G: Copy, S: Sink<F, G>>(
    station: u16,
    antenna: String,
    antenna_serial: String,
    receiver: String,
    firmware: String,
    receiver_serial: String,
    numbers: &Numbers<F, G>,
    week: TimeInterval,
    r: Result<bool>,
)
    ensures
        forall|c: &mut Converter<S>| #[trigger]
            call_ensures(
                Converter::<S>::convert_message::<V, F, G>,
                (c, &Message::Equipment { station, antenna, antenna_serial, receiver, firmware, receiver_serial }, numbers, week),
                r,
            ) ==> exists|m: MetadataView<F>| #[trigger]
                handed_on::<F, G, S>(*c, m, *final(c), r) && names_station(m, station) && is_placed(m, None, None) && is_cleaned(antenna@, m.antenna.type_) && is_cleaned(antenna_serial@, m.antenna.number) && is_cleaned(receiver@, m.receiver.type_) && is_cleaned(firmware@, m.receiver.version) && is_cleaned(receiver_serial@, m.receiver.number),
{
    assert forall|c: &mut Converter<S>| #[trigger]
        call_ensures(
            Converter::<S>::convert_message::<V, F, G>,
            (c, &Message::Equipment { station, antenna, antenna_serial, receiver, firmware, receiver_serial }, numbers, week),
            r,
        ) implies exists|m: MetadataView<F>| #[trigger]
        handed_on::<F, G, S>(*c, m, *final(c), r) && names_station(m, station) && is_placed(m, None, None) && is_cleaned(antenna@, m.antenna.type_) && is_cleaned(antenna_serial@, m.antenna.number) && is_cleaned(receiver@, m.receiver.type_) && is_cleaned(firmware@, m.receiver.version) && is_cleaned(receiver_serial@, m.receiver.number) by {
        let msg = Message::<V>::Equipment { station, antenna, antenna_serial, receiver, firmware, receiver_serial };
        let m = message_metadata(msg@, numbers@)->0;
        assert(message_converted(*c, msg@, numbers@, week, *final(c), r));
        lemma_handed_on::<F, G, S>(*c, m, *final(c), r);
        lemma_station_number(station);
        lemma_is_cleaned(antenna@);
        lemma_is_cleaned(antenna_serial@);
        lemma_is_cleaned(receiver@);
        lemma_is_cleaned(firmware@);
        lemma_is_cleaned(receiver_serial@);
    }
}

/// A message that names the station alone gives its number.
pub proof fn lemma_station_told<V: Copy, F: Copy, G: Copy, S: Sink<F, G>>(
    station: u16,
    numbers: &Numbers<F, G>,
    week: TimeInterval,
    r: Result<bool>,
)
    ensures
        forall|c: &mut Converter<S>| #[trigger]
            call_ensures(
                Converter::<S>::convert_message::<V, F, G>,
                (c, &Message::Station { station }, numbers, week),
                r,
            ) ==> exists|m: MetadataView<F>| #[trigger]
                handed_on::<F, G, S>(*c, m, *final(c), r) && names_station(m, station) && no_equipment(m) && is_placed(m, None, None),
{
    assert forall|c: &mut Converter<S>| #[trigger]
        call_ensures(
            Converter::<S>::convert_message::<V, F, G>,
            (c, &Message::Station { station }, numbers, week),
            r,
        ) implies exists|m: MetadataView<F>| #[trigger]
        handed_on::<F, G, S>(*c, m, *final(c), r) && names_station(m, station) && no_equipment(m) && is_placed(m, None, None) by {
        let msg = Message::<V>::Station { station };
        let m = message_metadata(msg@, numbers@)->0;
        assert(message_converted(*c, msg@, numbers@, week, *final(c), r));
        lemma_handed_on::<F, G, S>(*c, m, *final(c), r);
        lemma_station_number(station);
    }
}

/// A message with system parameters gives the leap seconds, and what follows is dated by
/// them.
pub proof fn lemma_leap_told<V: Copy, F: Copy, G: Copy, S: Sink<F, G>>(
    station: u16,
    leap: Option<u8>,
    numbers: &Numbers<F, G>,
    week: TimeInterval,
    r: Result<bool>,
)
    ensures
        forall|c: &mut Converter<S>| #[trigger]
            call_ensures(
                Converter::<S>::convert_message::<V, F, G>,
                (c, &Message::SystemParameters { station, leap }, numbers, week),
                r,
            ) ==> exists|m: MetadataView<F>| #[trigger]
                handed_on::<F, G, S>(*c, m, *final(c), r) && names_station(m, station) && no_equipment(m) && m.approx_position is None && m.antenna_delta is None && (match leap { Some(n) => (m.leap_seconds matches Some(x) && x == n) && final(c).leap() == n * 1000, None => m.leap_seconds is None && final(c).leap() == (*c).leap() }),
{
    assert forall|c: &mut Converter<S>| #[trigger]
        call_ensures(
            Converter::<S>::convert_message::<V, F, G>,
            (c, &Message::SystemParameters { station, leap }, numbers, week),
            r,
        ) implies exists|m: MetadataView<F>| #[trigger]
        handed_on::<F, G, S>(*c, m, *final(c), r) && names_station(m, station) && no_equipment(m) && m.approx_position is None && m.antenna_delta is None && (match leap { Some(n) => (m.leap_seconds matches Some(x) && x == n) && final(c).leap() == n * 1000, None => m.leap_seconds is None && final(c).leap() == (*c).leap() }) by {
        let msg = Message::<V>::SystemParameters { station, leap };
        let m = message_metadata(msg@, numbers@)->0;
        assert(message_converted(*c, msg@, numbers@, week, *final(c), r));
        lemma_handed_on::<F, G, S>(*c, m, *final(c), r);
        lemma_station_number(station);
    }
}

/// A message that is not used does nothing.
pub proof fn lemma_other_ignored<V: Copy, F: Copy, G: Copy, S: Sink<F, G>>(
    numbers: &Numbers<F, G>,
    week: TimeInterval,
    r: Result<bool>,
)
    ensures
        forall|c: &mut Converter<S>| #[trigger]
            call_ensures(
                Converter::<S>::convert_message::<V, F, G>,
                (c, &Message::Other, numbers, week),
                r,
            ) ==> {
                &&& r == Ok::<bool, Error>(false)
                &&& final(c).target() == (*c).target()
                &&& final(c).tracks() == (*c).tracks()
                &&& final(c).epochs() == (*c).epochs()
                &&& final(c).leap() == (*c).leap()
            },
{
}

/// A constraint that comes with a message is remembered, and none keeps the last; the
/// options stay.
pub proof fn lemma_week_remembered<V: Copy, F: Copy, G: Copy, S: Sink<F, G>>(
    msg: &Message<V>,
    numbers: &Numbers<F, G>,
    week: TimeInterval,
    r: Result<bool>,
)
    ensures
        forall|c: &mut Converter<S>| #[trigger]
            call_ensures(
                Converter::<S>::convert_message::<V, F, G>,
                (c, msg, numbers, week),
                r,
            ) ==> {
                &&& final(c).options() == (*c).options()
                &&& week.dur_ns != 0 ==> final(c).last_week() == week
                &&& week.dur_ns == 0 ==> final(c).last_week() == (*c).last_week()
            },
{
}

} // verus!
