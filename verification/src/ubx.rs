//! UBX RXM-RAWX to observations.
//!
//! RXM-RAWX carries pseudorange, carrier phase and Doppler directly, so the
//! values pass through unchanged. Slips are emitted as the loss-of-lock flag of
//! an observation, which [`LossOfLockSink`](crate::arc::LossOfLockSink) turns
//! into `arc`.

use crate::error::{Error, Result};
use crate::keymap::{fx_get, fx_insert, fx_value};
use crate::metadata::Metadata;
use crate::obs::{
    key_number, sat_id, GpsTime, SatId, SigId, SignalKey, SignalObservation, SignalValues,
    MS_PER_WEEK,
};
use crate::sink::{lemma_plain_ok, lemma_received_push, received, Sink};
use crate::text::push_bytes;
use crate::ubx_decode::{find_rawx, held, may_be_cut, raw_views, rawx_in, RawxView};
use crate::ubx_frame::{RawMeas, RawRawx};
use rustc_hash::FxHashMap;
use vstd::prelude::*;
use vstd::slice::slice_subrange;

verus! {

// UBX protocol GNSS identifier values used by RXM-RAWX.
pub const GPS: u8 = 0;

pub const SBAS: u8 = 1;

pub const GAL: u8 = 2;

pub const BDS: u8 = 3;

pub const QZSS: u8 = 5;

pub const GLO: u8 = 6;

pub const NAVIC: u8 = 7;

// Flags of the tracking status.
pub const PR_VALID: u8 = 1;

pub const CP_VALID: u8 = 2;

pub const HALF_CYC: u8 = 4;

pub const SUB_HALF_CYC: u8 = 8;

pub const CP_STD_MASK: u8 = 0x0f;

#[derive(Clone, Copy, Debug, PartialEq, Eq, Structural)]
pub struct Options {
    pub slip_threshold: u8,
    pub bds_geo_half_cycle: bool,
}

/// What is remembered of a signal between epochs.
#[derive(Clone, Copy, Debug, PartialEq, Eq, Structural)]
pub struct SignalState {
    pub lock: u16,
    pub sub_half_cyc: bool,
    pub pending: bool,
    pub seen: bool,
}

/// What is remembered of a signal that was not seen yet.
pub open spec fn unseen() -> SignalState {
    SignalState { lock: 0, sub_half_cyc: false, pending: false, seen: false }
}

impl Default for SignalState {
    fn default() -> (r: SignalState)
        ensures
            r == unseen(),
    {
        SignalState { lock: 0, sub_half_cyc: false, pending: false, seen: false }
    }
}

/// One measurement. The measured values are `None` where they are not finite.
#[derive(Clone, Copy, Debug)]
pub struct Meas<F, G> {
    pub pr_mes: Option<F>,
    pub cp_mes: Option<F>,
    /// The carrier phase and half a cycle.
    pub cp_half: Option<F>,
    pub do_mes: Option<F>,
    /// The signal strength `cno`.
    pub cn0: G,
    pub gnss_id: u8,
    pub sv_id: u8,
    pub sig_id: u8,
    pub freq_id: u8,
    pub lock_time: u16,
    pub cno: u8,
    pub cp_stdev: u8,
    pub trk_stat: u8,
}

/// One RXM-RAWX message: the measurements of an epoch.
#[derive(Debug)]
pub struct Rawx<F, G> {
    /// The receiver time of week in ticks.
    pub tow_ticks: i64,
    pub week: u16,
    pub meas: Vec<Meas<F, G>>,
}

/// Whether the bits of a double are those of a finite number.
pub open spec fn finite_double(bits: u64) -> bool {
    bits as int / 0x10_0000_0000_0000 % 2048 != 2047
}

/// Whether the bits of a single are those of a finite number.
pub open spec fn finite_single(bits: u32) -> bool {
    bits as int / 0x80_0000 % 256 != 255
}

/// The measured quantities of a measurement, computed from what it holds: those that
/// are not finite are left out, whatever is given for them.
#[derive(Clone, Copy, Debug)]
pub struct MeasNumbers<F, G> {
    pub pr: F,
    pub cp: F,
    /// The carrier phase and half a cycle.
    pub cp_half: F,
    pub dop: F,
    pub cn0: G,
}

/// The measured quantities of a message.
#[derive(Debug)]
pub struct RawxNumbers<F, G> {
    /// The receiver time of week in ticks.
    pub tow_ticks: i64,
    /// Those of its measurements, in their order.
    pub meas: Vec<MeasNumbers<F, G>>,
}

/// A measurement with its quantities.
pub open spec fn measured<F, G>(m: RawMeas, n: MeasNumbers<F, G>) -> Meas<F, G> {
    Meas {
        pr_mes: if finite_double(m.pr_mes) {
            Some(n.pr)
        } else {
            None
        },
        cp_mes: if finite_double(m.cp_mes) {
            Some(n.cp)
        } else {
            None
        },
        cp_half: if finite_double(m.cp_mes) {
            Some(n.cp_half)
        } else {
            None
        },
        do_mes: if finite_single(m.do_mes) {
            Some(n.dop)
        } else {
            None
        },
        cn0: n.cn0,
        gnss_id: m.gnss_id,
        sv_id: m.sv_id,
        sig_id: m.sig_id,
        freq_id: m.freq_id,
        lock_time: m.lock_time,
        cno: m.cno,
        cp_stdev: m.cp_stdev,
        trk_stat: m.trk_stat,
    }
}

/// A measurement with its quantities.
pub fn with_numbers<F: Copy, G: Copy>(m: &RawMeas, n: &MeasNumbers<F, G>) -> (r: Meas<F, G>)
    ensures
        r == measured(*m, *n),
{
    let cp: bool = m.cp_mes / 0x10_0000_0000_0000 % 2048 != 2047;
    Meas {
        pr_mes: if m.pr_mes / 0x10_0000_0000_0000 % 2048 != 2047 {
            Some(n.pr)
        } else {
            None
        },
        cp_mes: if cp {
            Some(n.cp)
        } else {
            None
        },
        cp_half: if cp {
            Some(n.cp_half)
        } else {
            None
        },
        do_mes: if m.do_mes / 0x80_0000 % 256 != 255 {
            Some(n.dop)
        } else {
            None
        },
        cn0: n.cn0,
        gnss_id: m.gnss_id,
        sv_id: m.sv_id,
        sig_id: m.sig_id,
        freq_id: m.freq_id,
        lock_time: m.lock_time,
        cno: m.cno,
        cp_stdev: m.cp_stdev,
        trk_stat: m.trk_stat,
    }
}

// ---- satellites and signals ----

/// The system letter of a GNSS identifier.
pub open spec fn system_of(gnss_id: u8) -> Option<u8> {
    if gnss_id == GPS {
        Some(0x47)
    } else if gnss_id == SBAS {
        Some(0x53)
    } else if gnss_id == GAL {
        Some(0x45)
    } else if gnss_id == BDS {
        Some(0x43)
    } else if gnss_id == QZSS {
        Some(0x4a)
    } else if gnss_id == GLO {
        Some(0x52)
    } else if gnss_id == NAVIC {
        Some(0x49)
    } else {
        None
    }
}

/// The system letter of a GNSS identifier.
pub fn rinex_sys(gnss_id: u8) -> (r: Option<u8>)
    ensures
        r == system_of(gnss_id),
{
    match gnss_id {
        0 => Some(0x47),
        1 => Some(0x53),
        2 => Some(0x45),
        3 => Some(0x43),
        5 => Some(0x4a),
        6 => Some(0x52),
        7 => Some(0x49),
        _ => None,
    }
}

/// The RINEX number of a satellite: SBAS numbers from 120 on lose their first
/// digit, and an unknown GLONASS satellite is 0.
pub open spec fn sat_num(gnss_id: u8, sv_id: u8) -> u8 {
    if gnss_id == SBAS && sv_id >= 120 {
        (sv_id - 100) as u8
    } else if gnss_id == GLO && sv_id == 255 {
        0
    } else {
        sv_id
    }
}

/// The RINEX number of a satellite.
pub fn rinex_sat_num(gnss_id: u8, sv_id: u8) -> (r: u8)
    ensures
        r == sat_num(gnss_id, sv_id),
{
    match gnss_id {
        1 => if sv_id >= 120 {
            sv_id - 100
        } else {
            sv_id
        },
        6 => if sv_id == 255 {
            0
        } else {
            sv_id
        },
        _ => sv_id,
    }
}

/// A band digit and an attribute letter.
pub open spec fn code(band: u8, attribute: u8) -> Option<[u8; 2]> {
    Some([band, attribute])
}

/// The RINEX signal of a GNSS and signal identifier.
pub open spec fn signal_of(gnss_id: u8, sig_id: u8) -> Option<[u8; 2]> {
    let c1 = code(0x31, 0x43);
    if gnss_id == GPS {
        if sig_id == 0 { c1 }
        else if sig_id == 3 { code(0x32, 0x4c) }
        else if sig_id == 4 { code(0x32, 0x53) }
        else if sig_id == 6 { code(0x35, 0x49) }
        else if sig_id == 7 { code(0x35, 0x51) }
        else { None }
    } else if gnss_id == SBAS {
        if sig_id == 0 { c1 } else { None }
    } else if gnss_id == GAL {
        if sig_id == 0 { c1 }
        else if sig_id == 1 { code(0x31, 0x42) }
        else if sig_id == 3 { code(0x35, 0x49) }
        else if sig_id == 4 { code(0x35, 0x51) }
        else if sig_id == 5 { code(0x37, 0x49) }
        else if sig_id == 6 { code(0x37, 0x51) }
        else if sig_id == 8 { code(0x36, 0x42) }
        else if sig_id == 9 { code(0x36, 0x43) }
        else if sig_id == 10 { code(0x36, 0x41) }
        else { None }
    } else if gnss_id == BDS {
        if sig_id == 0 || sig_id == 1 { code(0x32, 0x49) }
        else if sig_id == 2 || sig_id == 3 { code(0x37, 0x49) }
        else if sig_id == 4 || sig_id == 10 { code(0x36, 0x49) }
        else if sig_id == 5 { code(0x31, 0x50) }
        else if sig_id == 6 { code(0x31, 0x44) }
        else if sig_id == 7 { code(0x35, 0x50) }
        else if sig_id == 8 { code(0x35, 0x44) }
        else { None }
    } else if gnss_id == QZSS {
        if sig_id == 0 { c1 }
        else if sig_id == 1 { code(0x31, 0x5a) }
        else if sig_id == 4 { code(0x32, 0x53) }
        else if sig_id == 5 { code(0x32, 0x4c) }
        else if sig_id == 8 { code(0x35, 0x49) }
        else if sig_id == 9 { code(0x35, 0x51) }
        else if sig_id == 12 { code(0x31, 0x45) }
        else { None }
    } else if gnss_id == GLO {
        if sig_id == 0 { c1 }
        else if sig_id == 2 { code(0x32, 0x43) }
        else { None }
    } else if gnss_id == NAVIC {
        if sig_id == 0 { code(0x35, 0x41) } else { None }
    } else {
        None
    }
}

/// The RINEX signal of a GNSS and signal identifier.
pub fn rinex_sig(gnss_id: u8, sig_id: u8) -> (r: Option<[u8; 2]>)
    ensures
        r == signal_of(gnss_id, sig_id),
{
    match gnss_id {
        0 => match sig_id {
            0 => Some([0x31, 0x43]),
            3 => Some([0x32, 0x4c]),
            4 => Some([0x32, 0x53]),
            6 => Some([0x35, 0x49]),
            7 => Some([0x35, 0x51]),
            _ => None,
        },
        1 => match sig_id {
            0 => Some([0x31, 0x43]),
            _ => None,
        },
        2 => match sig_id {
            0 => Some([0x31, 0x43]),
            1 => Some([0x31, 0x42]),
            3 => Some([0x35, 0x49]),
            4 => Some([0x35, 0x51]),
            5 => Some([0x37, 0x49]),
            6 => Some([0x37, 0x51]),
            8 => Some([0x36, 0x42]),
            9 => Some([0x36, 0x43]),
            10 => Some([0x36, 0x41]),
            _ => None,
        },
        3 => match sig_id {
            0 => Some([0x32, 0x49]),
            1 => Some([0x32, 0x49]),
            2 => Some([0x37, 0x49]),
            3 => Some([0x37, 0x49]),
            4 => Some([0x36, 0x49]),
            5 => Some([0x31, 0x50]),
            6 => Some([0x31, 0x44]),
            7 => Some([0x35, 0x50]),
            8 => Some([0x35, 0x44]),
            10 => Some([0x36, 0x49]),
            _ => None,
        },
        5 => match sig_id {
            0 => Some([0x31, 0x43]),
            1 => Some([0x31, 0x5a]),
            4 => Some([0x32, 0x53]),
            5 => Some([0x32, 0x4c]),
            8 => Some([0x35, 0x49]),
            9 => Some([0x35, 0x51]),
            12 => Some([0x31, 0x45]),
            _ => None,
        },
        6 => match sig_id {
            0 => Some([0x31, 0x43]),
            2 => Some([0x32, 0x43]),
            _ => None,
        },
        7 => match sig_id {
            0 => Some([0x35, 0x41]),
            _ => None,
        },
        _ => None,
    }
}

/// The satellite and signal of a measurement.
pub open spec fn meas_key<F, G>(m: Meas<F, G>) -> Option<SignalKey> {
    match (system_of(m.gnss_id), signal_of(m.gnss_id, m.sig_id)) {
        (Some(sys), Some(sig)) => if sat_num(m.gnss_id, m.sv_id) != 0 {
            Some(
                SignalKey { sat: sat_id(sys, sat_num(m.gnss_id, m.sv_id)), sig: SigId(sig) },
            )
        } else {
            None
        },
        _ => None,
    }
}

impl<F, G> Meas<F, G> {
    /// Whether the satellite and the signal of the measurement are known.
    pub fn is_known(&self) -> (r: bool)
        ensures
            r == (meas_key(*self) is Some),
    {
        rinex_sys(self.gnss_id).is_some() && rinex_sig(self.gnss_id, self.sig_id).is_some()
            && rinex_sat_num(self.gnss_id, self.sv_id) != 0
    }
}

/// A BeiDou satellite in geostationary orbit.
pub open spec fn bds_geo(gnss_id: u8, sv_id: u8) -> bool {
    gnss_id == BDS && (sv_id <= 5 || sv_id >= 59)
}

/// Whether a satellite is a BeiDou satellite in geostationary orbit.
pub fn is_bds_geo<F, G>(meas: &Meas<F, G>) -> (r: bool)
    ensures
        r == bds_geo(meas.gnss_id, meas.sv_id),
{
    meas.gnss_id == BDS && (meas.sv_id <= 5 || meas.sv_id >= 59)
}

/// The carrier phase of a measurement: none unless it is marked valid, and half a
/// cycle more for a geostationary BeiDou satellite where that is asked for.
pub open spec fn phase_of<F, G>(m: Meas<F, G>, bds_geo_half_cycle: bool) -> Option<F> {
    if m.trk_stat & CP_VALID == 0 || m.cp_mes is None {
        None
    } else if bds_geo_half_cycle && bds_geo(m.gnss_id, m.sv_id) {
        m.cp_half
    } else {
        m.cp_mes
    }
}

/// The carrier phase of a measurement.
pub fn carrier_phase<F: Copy, G>(meas: &Meas<F, G>, bds_geo_half_cycle: bool) -> (r: Option<F>)
    ensures
        r == phase_of(*meas, bds_geo_half_cycle),
{
    if meas.trk_stat & CP_VALID == 0 || meas.cp_mes.is_none() {
        return None;
    }
    if bds_geo_half_cycle && is_bds_geo(meas) {
        meas.cp_half
    } else {
        meas.cp_mes
    }
}

/// Whether the half-cycle ambiguity of a measurement is not resolved.
pub open spec fn half_open<F, G>(m: Meas<F, G>) -> bool {
    if m.gnss_id == SBAS {
        m.lock_time <= 8000
    } else {
        m.trk_stat & HALF_CYC == 0
    }
}

/// Whether the half-cycle ambiguity of a measurement is not resolved: for SBAS
/// while the lock time is short, else unless a flag tells that it is.
pub fn half_cycle_unresolved<F, G>(meas: &Meas<F, G>) -> (r: bool)
    ensures
        r == half_open(*meas),
{
    if meas.gnss_id == SBAS {
        meas.lock_time <= 8000
    } else {
        meas.trk_stat & HALF_CYC == 0
    }
}

// ---- slips ----

/// Whether the half-cycle subtraction of a signal changed.
pub open spec fn sub_changed<F, G>(st: SignalState, m: Meas<F, G>) -> bool {
    (m.trk_stat & SUB_HALF_CYC != 0) != st.sub_half_cyc
}

/// Whether a slip waits to be flagged, before it is: the lock time is 0 or went
/// back, the half-cycle subtraction changed, or the phase is too uncertain.
pub open spec fn slip_waits<F, G>(st: SignalState, m: Meas<F, G>, threshold: u8) -> bool {
    ||| st.pending
    ||| m.lock_time == 0
    ||| (st.seen && m.lock_time < st.lock)
    ||| sub_changed(st, m)
    ||| (m.cp_stdev & CP_STD_MASK) >= threshold
}

/// Whether loss of lock is flagged: a slip waits and there is a phase.
pub open spec fn slip_flag<F, G>(st: SignalState, m: Meas<F, G>, phase: bool, threshold: u8) -> bool {
    phase && slip_waits(st, m, threshold)
}

/// What is remembered of a signal after a measurement: a slip without a phase
/// goes on waiting.
pub open spec fn state_after<F, G>(
    st: SignalState,
    m: Meas<F, G>,
    phase: bool,
    threshold: u8,
) -> SignalState {
    SignalState {
        lock: m.lock_time,
        sub_half_cyc: m.trk_stat & SUB_HALF_CYC != 0,
        pending: !phase && slip_waits(st, m, threshold),
        seen: true,
    }
}

/// What is remembered under `k`.
pub open spec fn state_in(states: Map<u64, SignalState>, k: SignalKey) -> SignalState {
    match fx_value(states, key_number(k)) {
        Some(st) => st,
        None => unseen(),
    }
}

/// A frequency identifier as a GLONASS channel number.
pub open spec fn glonass_channel(freq_id: u8) -> int {
    (if freq_id < 128 { freq_id as int } else { freq_id - 256 }) - 7
}

/// Whether the GLONASS channel of a measurement can be told: the numbers from
/// 128 to 134 leave none. It is asked only of a satellite and a signal that are
/// known.
pub open spec fn channel_ok<F, G>(m: Meas<F, G>) -> bool {
    m.gnss_id == GLO && meas_key(m) is Some ==> !(128 <= m.freq_id <= 134)
}

/// The observation of a measurement.
pub open spec fn meas_observation<F, G>(
    states: Map<u64, SignalState>,
    t: GpsTime,
    k: SignalKey,
    m: Meas<F, G>,
    opts: Options,
) -> SignalObservation<F, G> {
    let st = state_in(states, k);
    let cp = phase_of(m, opts.bds_geo_half_cycle);
    SignalObservation {
        t,
        sat: k.sat,
        sig: k.sig,
        v: SignalValues {
            frq: if m.gnss_id == GLO {
                Some(glonass_channel(m.freq_id) as i8)
            } else {
                None
            },
            pr: if m.trk_stat & PR_VALID != 0 {
                m.pr_mes
            } else {
                None
            },
            cp,
            dop: m.do_mes,
            cn0: if m.cno != 0 {
                Some(m.cn0)
            } else {
                None
            },
            arc: 0,
            hc: cp is Some && half_open(m),
            bt: false,
            ll: slip_flag(st, m, cp is Some, opts.slip_threshold),
        },
    }
}

/// What a measurement does to what is remembered, and the observation that it
/// gives, if any.
pub open spec fn meas_step<F, G>(
    states: Map<u64, SignalState>,
    t: GpsTime,
    m: Meas<F, G>,
    opts: Options,
) -> (Map<u64, SignalState>, Option<SignalObservation<F, G>>) {
    match meas_key(m) {
        None => (states, None),
        Some(k) => {
            let o = meas_observation(states, t, k, m, opts);
            let st = state_after(state_in(states, k), m, o.v.cp is Some, opts.slip_threshold);
            (
                states.insert(key_number(k), st),
                if o.any_code() {
                    Some(o)
                } else {
                    None
                },
            )
        },
    }
}

/// What the first `n` measurements of a message do, and the observations that
/// they give.
pub open spec fn meas_done<F, G>(
    states: Map<u64, SignalState>,
    t: GpsTime,
    meas: Seq<Meas<F, G>>,
    opts: Options,
    n: int,
) -> (Map<u64, SignalState>, Seq<SignalObservation<F, G>>)
    decreases n,
{
    if n <= 0 {
        (states, Seq::empty())
    } else {
        let (s, os) = meas_done(states, t, meas, opts, n - 1);
        let (s2, o) = meas_step(s, t, meas[n - 1], opts);
        (
            s2,
            match o {
                Some(o) => os.push(o),
                None => os,
            },
        )
    }
}

/// The epoch of a message.
pub open spec fn rawx_time<F, G>(m: Rawx<F, G>) -> int {
    m.week * MS_PER_WEEK * 10_000 + m.tow_ticks
}

/// Whether the epoch of a message can be counted in ticks and the GLONASS channel of
/// every known satellite in it can be told.
pub open spec fn rawx_ok<F, G>(m: Rawx<F, G>) -> bool {
    &&& m.week * MS_PER_WEEK * 1_000_000 <= i64::MAX
    &&& i64::MIN <= rawx_time(m) <= i64::MAX
    &&& forall|i: int| 0 <= i < m.meas@.len() ==> channel_ok(#[trigger] m.meas@[i])
}

impl<F, G> Rawx<F, G> {
    /// Whether the epoch of the message can be counted in ticks and the GLONASS
    /// channel of every known satellite in it can be told.
    pub fn is_ok(&self) -> (r: bool)
        ensures
            r == rawx_ok(*self),
    {
        if self.week > 15250 {
            return false;
        }
        let start: i64 = self.week as i64 * MS_PER_WEEK * 10_000;
        if start.checked_add(self.tow_ticks).is_none() {
            return false;
        }
        let mut i: usize = 0;
        while i < self.meas.len()
            invariant
                i <= self.meas@.len(),
                forall|j: int| 0 <= j < i ==> channel_ok(#[trigger] self.meas@[j]),
            decreases self.meas@.len() - i,
        {
            let f: u8 = self.meas[i].freq_id;
            if self.meas[i].gnss_id == GLO && 128 <= f && f <= 134 && self.meas[i].is_known() {
                assert(!channel_ok(self.meas@[i as int]));
                return false;
            }
            i += 1;
        }
        true
    }
}

// ---- the converter ----

/// Converts RXM-RAWX messages into observations.
pub struct Converter<S> {
    opts: Options,
    sink: S,
    state: FxHashMap<u64, SignalState>,
    unread: Vec<u8>,
}

/// The options that a converter works with: a threshold of 0 stands for 15.
pub open spec fn effective(opts: Options) -> Options {
    Options {
        slip_threshold: if opts.slip_threshold == 0 {
            15
        } else {
            opts.slip_threshold
        },
        ..opts
    }
}

/// What converting one message does: its measurements are converted in order, up
/// to the first that the sink refuses.
pub open spec fn rawx_converted<F, G, S: Sink<F, G>>(
    pre: Converter<S>,
    m: Rawx<F, G>,
    post: Converter<S>,
    r: Result<()>,
) -> bool {
    exists|n: int, sent: Result<()>| #[trigger] meas_sent(pre, m, post, r, n, sent)
}

/// What converting the first `n` measurements does, the last of which the sink
/// answered with `sent`.
pub open spec fn meas_sent<F, G, S: Sink<F, G>>(
    pre: Converter<S>,
    m: Rawx<F, G>,
    post: Converter<S>,
    r: Result<()>,
    n: int,
    sent: Result<()>,
) -> bool {
    let done = meas_done(pre.states(), GpsTime(rawx_time(m) as i64), m.meas@, pre.options(), n);
    &&& 0 <= n <= m.meas@.len()
    &&& post.options() == pre.options()
    &&& post.pending() == pre.pending()
    &&& post.states() == done.0
    &&& received::<F, G, S>(pre.target(), done.1, post.target(), sent)
    &&& r == sent
    &&& sent is Ok ==> n == m.meas@.len()
}

/// Whether a converter comes from `pre` to `post` by converting the messages
/// `batch` in order, the last of them with the result `r` and all others with
/// success.
pub open spec fn batch_converted<F, G, S: Sink<F, G>>(
    pre: Converter<S>,
    batch: Seq<Rawx<F, G>>,
    post: Converter<S>,
    r: Result<()>,
) -> bool
    decreases batch.len(),
{
    if batch.len() == 0 {
        post == pre && r == Ok::<(), Error>(())
    } else {
        exists|mid: Converter<S>|
            {
                &&& batch_converted::<F, G, S>(pre, batch.drop_last(), mid, Ok(()))
                &&& #[trigger] rawx_converted(mid, batch.last(), post, r)
            }
    }
}

/// What converting messages gives: their number, or the error of the sink that ended
/// it.
pub open spec fn batch_done<F, G, S: Sink<F, G>>(
    pre: Converter<S>,
    batch: Seq<Rawx<F, G>>,
    post: Converter<S>,
    r: Result<u64>,
) -> bool {
    match r {
        Ok(n) => n == batch.len() && batch_converted::<F, G, S>(pre, batch, post, Ok(())),
        Err(e) => exists|n: int|
            0 < n <= batch.len() && batch_converted::<F, G, S>(
                pre,
                #[trigger] batch.take(n),
                post,
                Err(e),
            ),
    }
}

/// Whether a message has the quantities `n`, and with them can be converted.
pub open spec fn rawx_fits<F, G>(m: RawxView, n: RawxNumbers<F, G>) -> bool {
    &&& n.meas@.len() == m.2.len()
    &&& m.1 * MS_PER_WEEK * 1_000_000 <= i64::MAX
    &&& i64::MIN <= m.1 * MS_PER_WEEK * 10_000 + n.tow_ticks <= i64::MAX
    &&& forall|i: int| 0 <= i < m.2.len() ==> channel_ok(#[trigger] measured(m.2[i], n.meas@[i]))
}

/// Whether all messages have their quantities, and with them can be converted.
pub open spec fn numbers_fit<F, G>(found: Seq<RawxView>, n: Seq<RawxNumbers<F, G>>) -> bool {
    &&& n.len() == found.len()
    &&& forall|i: int| 0 <= i < found.len() ==> rawx_fits(#[trigger] found[i], n[i])
}

/// Whether a message is the one that was found, with its quantities.
pub open spec fn rawx_measured<F, G>(
    m: RawxView,
    n: RawxNumbers<F, G>,
    r: Rawx<F, G>,
) -> bool {
    &&& r.tow_ticks == n.tow_ticks
    &&& r.week == m.1
    &&& r.meas@ == Seq::new(m.2.len(), |i: int| measured(m.2[i], n.meas@[i]))
}

/// Whether messages are those that were found, with their quantities.
pub open spec fn is_measured<F, G>(
    found: Seq<RawxView>,
    n: Seq<RawxNumbers<F, G>>,
    batch: Seq<Rawx<F, G>>,
) -> bool {
    &&& batch.len() == found.len()
    &&& forall|i: int| 0 <= i < found.len() ==> rawx_measured(#[trigger] found[i], n[i], batch[i])
}

/// Whether a converter comes from `pre` to `post` by taking in `bytes`, of which it
/// keeps those of a packet that is not complete.
pub open spec fn fed<S>(pre: Converter<S>, bytes: Seq<u8>, post: Converter<S>) -> bool {
    &&& post.target() == pre.target()
    &&& post.options() == pre.options()
    &&& post.states() == pre.states()
    &&& post.pending() == held(bytes)
}

/// What a chunk of bytes does: the messages that it completes are converted, unless
/// the quantities are not theirs or one of them is out of range.
pub open spec fn chunk_converted<F, G, S: Sink<F, G>>(
    pre: Converter<S>,
    data: Seq<u8>,
    numbers: Seq<RawxNumbers<F, G>>,
    post: Converter<S>,
    r: Result<u64>,
) -> bool {
    let bytes = pre.pending() + data;
    let found = rawx_in(bytes);
    &&& post.pending() == held(bytes)
    &&& if numbers_fit(found, numbers) {
        exists|mid: Converter<S>, batch: Seq<Rawx<F, G>>|
            {
                &&& #[trigger] fed(pre, bytes, mid)
                &&& #[trigger] is_measured(found, numbers, batch)
                &&& batch_done(mid, batch, post, r)
            }
    } else {
        &&& fed(pre, bytes, post)
        &&& r matches Err(Error::Ubx(m)) && m@ == "UBX-RXM-RAWX value out of range"@
    }
}

proof fn lemma_pending_kept<F, G, S: Sink<F, G>>(
    pre: Converter<S>,
    batch: Seq<Rawx<F, G>>,
    post: Converter<S>,
    r: Result<()>,
)
    requires
        batch_converted::<F, G, S>(pre, batch, post, r),
    ensures
        post.pending() == pre.pending(),
    decreases batch.len(),
{
    if batch.len() > 0 {
        let mid = choose|mid: Converter<S>|
            {
                &&& batch_converted::<F, G, S>(pre, batch.drop_last(), mid, Ok(()))
                &&& #[trigger] rawx_converted(mid, batch.last(), post, r)
            };
        lemma_pending_kept::<F, G, S>(pre, batch.drop_last(), mid, Ok(()));
    }
}

proof fn lemma_pending_done<F, G, S: Sink<F, G>>(
    pre: Converter<S>,
    batch: Seq<Rawx<F, G>>,
    post: Converter<S>,
    r: Result<u64>,
)
    requires
        batch_done::<F, G, S>(pre, batch, post, r),
    ensures
        post.pending() == pre.pending(),
{
    match r {
        Ok(_) => lemma_pending_kept::<F, G, S>(pre, batch, post, Ok(())),
        Err(e) => {
            let n = choose|n: int|
                0 < n <= batch.len() && batch_converted::<F, G, S>(
                    pre,
                    #[trigger] batch.take(n),
                    post,
                    Err(e),
                );
            lemma_pending_kept::<F, G, S>(pre, batch.take(n), post, Err(e));
        },
    }
}

fn measure_rawx<F: Copy, G: Copy>(m: &RawRawx, n: &RawxNumbers<F, G>) -> (r: Option<Rawx<F, G>>)
    ensures
        r is Some <==> rawx_fits((m.rcv_tow, m.week, m.meas@), *n),
        r matches Some(x) ==> rawx_ok(x) && rawx_measured((m.rcv_tow, m.week, m.meas@), *n, x),
{
    if n.meas.len() != m.meas.len() {
        return None;
    }
    let ghost all = Seq::new(m.meas@.len(), |i: int| measured(m.meas@[i], n.meas@[i]));
    let mut meas: Vec<Meas<F, G>> = Vec::new();
    let mut i: usize = 0;
    while i < m.meas.len()
        invariant
            i <= m.meas@.len(),
            n.meas@.len() == m.meas@.len(),
            all == Seq::new(m.meas@.len(), |i: int| measured(m.meas@[i], n.meas@[i])),
            meas@ == all.take(i as int),
        decreases m.meas@.len() - i,
    {
        meas.push(with_numbers(&m.meas[i], &n.meas[i]));
        assert(meas@ =~= all.take(i + 1));
        i += 1;
    }
    assert(all.take(i as int) =~= all);
    let r = Rawx { tow_ticks: n.tow_ticks, week: m.week, meas };
    let ok = r.is_ok();
    proof {
        assert(r.meas@ == all);
        if ok {
            assert forall|j: int| 0 <= j < m.meas@.len() implies channel_ok(
                #[trigger] measured(m.meas@[j], n.meas@[j]),
            ) by {
                assert(channel_ok(r.meas@[j]));
            }
        } else if rawx_fits((m.rcv_tow, m.week, m.meas@), *n) {
            assert forall|j: int| 0 <= j < r.meas@.len() implies channel_ok(
                #[trigger] r.meas@[j],
            ) by {
                assert(channel_ok(measured(m.meas@[j], n.meas@[j])));
            }
        }
    }
    if ok {
        Some(r)
    } else {
        None
    }
}

/// The messages that were found, with their quantities; none where the quantities are
/// not theirs or one of them is out of range.
pub fn measure<F: Copy, G: Copy>(found: &Vec<RawRawx>, n: &[RawxNumbers<F, G>]) -> (r: Option<
    Vec<Rawx<F, G>>,
>)
    ensures
        r is Some <==> numbers_fit(raw_views(found@), n@),
        r matches Some(b) ==> {
            &&& is_measured(raw_views(found@), n@, b@)
            &&& forall|i: int| 0 <= i < b@.len() ==> rawx_ok(#[trigger] b@[i])
        },
{
    let ghost views = raw_views(found@);
    if n.len() != found.len() {
        return None;
    }
    let mut out: Vec<Rawx<F, G>> = Vec::new();
    let mut i: usize = 0;
    while i < found.len()
        invariant
            i <= found@.len(),
            n@.len() == found@.len(),
            views == raw_views(found@),
            out@.len() == i,
            forall|j: int| 0 <= j < i ==> rawx_fits(#[trigger] views[j], n@[j]),
            forall|j: int| 0 <= j < i ==> rawx_measured(#[trigger] views[j], n@[j], out@[j]),
            forall|j: int| 0 <= j < i ==> rawx_ok(#[trigger] out@[j]),
        decreases found@.len() - i,
    {
        let one = measure_rawx(&found[i], &n[i]);
        assert(views[i as int] == (
            found@[i as int].rcv_tow,
            found@[i as int].week,
            found@[i as int].meas@,
        ));
        match one {
            Some(x) => out.push(x),
            None => {
                assert(!rawx_fits(views[i as int], n@[i as int]));
                return None;
            },
        }
        i += 1;
    }
    Some(out)
}

impl<S> Converter<S> {
    /// The sink that records go to.
    pub closed spec fn target(self) -> S {
        self.sink
    }

    pub closed spec fn options(self) -> Options {
        self.opts
    }

    /// The bytes of a packet that is not complete yet.
    pub closed spec fn pending(self) -> Seq<u8> {
        self.unread@
    }

    /// What is remembered of the signals.
    pub closed spec fn states(self) -> Map<u64, SignalState> {
        self.state@
    }

    /// Whether this is a converter that has converted nothing yet.
    pub open spec fn starts(self, sink: S, opts: Options) -> bool {
        &&& self.target() == sink
        &&& self.options() == effective(opts)
        &&& self.states() == Map::<u64, SignalState>::empty()
        &&& self.pending() == Seq::<u8>::empty()
    }

    pub fn new(sink: S, opts: Options) -> (r: Converter<S>)
        ensures
            r.starts(sink, opts),
    {
        let mut o = opts;
        if o.slip_threshold == 0 {
            o.slip_threshold = 15;
        }
        let r = Converter { opts: o, sink, state: FxHashMap::default(), unread: Vec::new() };
        assert(r.pending() =~= Seq::<u8>::empty());
        r
    }

    /// The sink that records go to.
    pub fn sink(&self) -> (r: &S)
        ensures
            *r == self.target(),
    {
        &self.sink
    }

    /// Forwards metadata directly to the sink.
    pub fn sink_metadata<F, G>(&mut self, m: &Metadata<F>) -> (r: Result<()>) where S: Sink<F, G>
        ensures
            S::metadata_step(old(self).target(), m@, final(self).target(), r),
            final(self).options() == old(self).options(),
            final(self).states() == old(self).states(),
            final(self).pending() == old(self).pending(),
    {
        self.sink.metadata(m)
    }

    /// Flushes the sink.
    pub fn flush<F, G>(&mut self) -> (r: Result<()>) where S: Sink<F, G>
        ensures
            S::flush_step(old(self).target(), final(self).target(), r),
            final(self).options() == old(self).options(),
            final(self).states() == old(self).states(),
            final(self).pending() == old(self).pending(),
    {
        self.sink.flush()
    }

    /// Detects a carrier-phase slip (loss of lock) and the half-cycle bit of one
    /// measurement. A slip is deferred until the next epoch that carries phase.
    pub fn slip_hc<F, G>(&mut self, sat: SatId, sig: SigId, meas: &Meas<F, G>, phase: bool) -> (r: (
        bool,
        bool,
    ))
        ensures
            ({
                let k = SignalKey { sat: sat, sig: sig };
                let st = state_in(old(self).states(), k);
                let threshold = old(self).options().slip_threshold;
                &&& r.0 == slip_flag(st, *meas, phase, threshold)
                &&& r.1 == (phase && half_open(*meas))
                &&& final(self).states() == old(self).states().insert(
                    key_number(k),
                    state_after(st, *meas, phase, threshold),
                )
            }),
            final(self).target() == old(self).target(),
            final(self).options() == old(self).options(),
            final(self).pending() == old(self).pending(),
    {
        let k: u64 = (SignalKey { sat, sig }).number();
        let mut st: SignalState = match fx_get(&self.state, k) {
            Some(st) => st,
            None => SignalState::default(),
        };
        let sub: bool = meas.trk_stat & SUB_HALF_CYC != 0;
        let changed: bool = sub != st.sub_half_cyc;
        let mut ll: bool = false;
        if meas.lock_time == 0 || (st.seen && meas.lock_time < st.lock) || changed || (
        meas.cp_stdev & CP_STD_MASK) >= self.opts.slip_threshold {
            st.pending = true;
        }
        if phase && st.pending {
            ll = true;
            st.pending = false;
        }
        let hc: bool = phase && half_cycle_unresolved(meas);
        st.lock = meas.lock_time;
        st.sub_half_cyc = sub;
        st.seen = true;
        fx_insert(&mut self.state, k, st);
        (ll, hc)
    }

    /// The observation of a measurement, if it gives one.
    pub fn observation<F: Copy, G: Copy>(&mut self, t: GpsTime, meas: &Meas<F, G>) -> (r: Option<
        SignalObservation<F, G>,
    >)
        requires
            channel_ok(*meas),
        ensures
            (final(self).states(), r) == meas_step(
                old(self).states(),
                t,
                *meas,
                old(self).options(),
            ),
            final(self).target() == old(self).target(),
            final(self).options() == old(self).options(),
            final(self).pending() == old(self).pending(),
    {
        let sys: u8 = match rinex_sys(meas.gnss_id) {
            Some(s) => s,
            None => {
                return None;
            },
        };
        let num: u8 = rinex_sat_num(meas.gnss_id, meas.sv_id);
        let sig = match rinex_sig(meas.gnss_id, meas.sig_id) {
            Some(s) => SigId(s),
            None => {
                return None;
            },
        };
        if num == 0 {
            return None;
        }
        let sat = SatId::format(sys, num);
        let mut o: SignalObservation<F, G> = SignalObservation {
            t,
            sat,
            sig,
            v: SignalValues::default(),
        };
        if meas.gnss_id == GLO {
            let f: u8 = meas.freq_id;
            let channel: i16 = if f < 128 {
                f as i16 - 7
            } else {
                f as i16 - 263
            };
            o.v.frq = Some(channel as i8);
        }
        if meas.trk_stat & PR_VALID != 0 {
            o.v.pr = meas.pr_mes;
        }
        let cp = carrier_phase(meas, self.opts.bds_geo_half_cycle);
        let (ll, hc) = self.slip_hc(sat, sig, meas, cp.is_some());
        o.v.cp = cp;
        o.v.ll = ll;
        o.v.hc = hc;
        o.v.dop = meas.do_mes;
        if meas.cno != 0 {
            o.v.cn0 = Some(meas.cn0);
        }
        assert(o == meas_observation(
            old(self).states(),
            t,
            (SignalKey { sat: sat, sig: sig }),
            *meas,
            old(self).options(),
        ));
        if !o.has_any_code() {
            return None;
        }
        Some(o)
    }

    fn convert_rawx<F: Copy, G: Copy>(&mut self, m: &Rawx<F, G>) -> (r: Result<()>) where
        S: Sink<F, G>,

        requires
            rawx_ok(*m),
        ensures
            rawx_converted(*old(self), *m, *final(self), r),
    {
        let t = GpsTime::from_gps_week_ticks(m.week as i64, m.tow_ticks);
        let ghost pre = *old(self);
        let mut i: usize = 0;
        assert(received::<F, G, S>(pre.target(), Seq::empty(), self.target(), Ok(())));
        while i < m.meas.len()
            invariant
                i <= m.meas@.len(),
                rawx_ok(*m),
                t.0 == rawx_time(*m),
                pre == *old(self),
                self.options() == pre.options(),
                self.pending() == pre.pending(),
                self.states() == meas_done(pre.states(), t, m.meas@, pre.options(), i as int).0,
                received::<F, G, S>(
                    pre.target(),
                    meas_done(pre.states(), t, m.meas@, pre.options(), i as int).1,
                    self.target(),
                    Ok(()),
                ),
            decreases m.meas@.len() - i,
        {
            let ghost done = meas_done(pre.states(), t, m.meas@, pre.options(), i as int);
            let ghost next = meas_done(pre.states(), t, m.meas@, pre.options(), i + 1);
            let found = self.observation(t, &m.meas[i]);
            if let Some(o) = found {
                let ghost before = self.target();
                let sent = self.sink.observation(&o);
                proof {
                    assert(S::observation_step(before, o, self.target(), sent));
                    lemma_received_push(pre.target(), done.1, before, o, self.target(), sent);
                    assert(next.1 == done.1.push(o));
                    lemma_plain_ok(sent);
                }
                if let Err(e) = sent {
                    assert(meas_sent(pre, *m, *self, Err(e), i + 1, Err(e)));
                    return Err(e);
                }
            }
            i += 1;
        }
        assert(meas_sent(pre, *m, *self, Ok(()), m.meas@.len() as int, Ok(())));
        Ok(())
    }

    /// Converts RXM-RAWX messages in order. Returns their number.
    pub fn convert_batch<F: Copy, G: Copy>(&mut self, batch: &[Rawx<F, G>]) -> (r: Result<
        u64,
    >) where S: Sink<F, G>
        requires
            forall|i: int| 0 <= i < batch@.len() ==> rawx_ok(#[trigger] batch@[i]),
        ensures
            batch_done(*old(self), batch@, *final(self), r),
    {
        let ghost pre = *old(self);
        let mut i: usize = 0;
        assert(batch@.take(0) =~= Seq::empty());
        assert(batch_converted::<F, G, S>(pre, batch@.take(0), *self, Ok(())));
        while i < batch.len()
            invariant
                i <= batch@.len(),
                forall|j: int| 0 <= j < batch@.len() ==> rawx_ok(#[trigger] batch@[j]),
                pre == *old(self),
                batch_converted::<F, G, S>(pre, batch@.take(i as int), *self, Ok(())),
            decreases batch@.len() - i,
        {
            let ghost mid = *self;
            let one = self.convert_rawx(&batch[i]);
            proof {
                assert(batch@.take(i + 1).drop_last() =~= batch@.take(i as int));
                assert(batch@.take(i + 1).last() == batch@[i as int]);
                assert(rawx_converted(mid, batch@.take(i + 1).last(), *self, one));
                assert(batch_converted::<F, G, S>(pre, batch@.take(i + 1), *self, one));
                lemma_plain_ok(one);
            }
            i += 1;
            if let Err(e) = one {
                return Err(e);
            }
        }
        assert(batch@.take(i as int) =~= batch@);
        Ok(i as u64)
    }

    /// The RXM-RAWX messages that a chunk of bytes completes.
    pub fn messages(&self, data: &[u8]) -> (r: Vec<RawRawx>)
        ensures
            raw_views(r@) == rawx_in(self.pending() + data@),
    {
        let mut bytes: Vec<u8> = Vec::new();
        push_bytes(&mut bytes, self.unread.as_slice());
        push_bytes(&mut bytes, data);
        assert(bytes@ =~= self.pending() + data@);
        find_rawx(bytes.as_slice()).0
    }

    /// Converts every RXM-RAWX message that a chunk of bytes completes. `numbers` holds
    /// what was computed from these messages. Returns their number. A packet that is
    /// split between chunks is found too: the messages in a stream do not depend on
    /// where it was cut.
    pub fn convert_chunk<F: Copy, G: Copy>(
        &mut self,
        data: &[u8],
        numbers: &[RawxNumbers<F, G>],
    ) -> (r: Result<u64>) where S: Sink<F, G>
        ensures
            chunk_converted(*old(self), data@, numbers@, *final(self), r),
            may_be_cut(old(self).pending() + data@),
    {
        let mut bytes: Vec<u8> = Vec::new();
        push_bytes(&mut bytes, self.unread.as_slice());
        push_bytes(&mut bytes, data);
        assert(bytes@ =~= old(self).pending() + data@);
        let (found, unread) = find_rawx(bytes.as_slice());
        let mut rest: Vec<u8> = Vec::new();
        let from: usize = bytes.len() - unread;
        let tail = slice_subrange(bytes.as_slice(), from, bytes.len());
        push_bytes(&mut rest, tail);
        assert(rest@ =~= bytes@.skip(from as int));
        self.unread = rest;
        let ghost mid = *self;
        assert(fed(*old(self), bytes@, mid));
        match measure(&found, numbers) {
            None => Err(Error::Ubx("UBX-RXM-RAWX value out of range".to_owned())),
            Some(batch) => {
                assert(is_measured(rawx_in(bytes@), numbers@, batch@));
                let r = self.convert_batch(batch.as_slice());
                proof {
                    lemma_pending_done(mid, batch@, *self, r);
                }
                r
            },
        }
    }
}

} // verus!
