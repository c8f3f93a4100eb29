//! RTCM MSM7 to observations: slip detection, week resolution and metadata.
//!
//! Slips are emitted as the loss-of-lock flag of an observation, which
//! [`LossOfLockSink`](crate::arc::LossOfLockSink) turns into `arc`. The ranges,
//! phases, Doppler shifts and signal strengths of a cell are handed in; which of them
//! there are, the message decides.

pub use crate::rtcm_time::{Gnss, TimeInterval};

use crate::crc24q::crc24q;
use crate::error::{Error, Result};
use crate::freq::{carrier_hz, signal_frequency_hz};
use crate::keymap::{fx_get, fx_insert, fx_remove, fx_value};
use crate::metadata::{
    no_metadata, Antenna, AntennaView, Marker, MarkerView, Metadata, MetadataView, Receiver,
    ReceiverView,
};
use crate::obs::{
    key_number, sat_id, sig_valid, GpsTime, SatId, SigId, SignalKey, SignalObservation,
    SignalValues,
};
use crate::rtcm_decode::{decode_message, message_in};
use crate::rtcm_time::{
    as_ints, can_continue, candidate_after, epoch_error, epoch_offsets, epoch_week_offsets,
    nearest_at, resolve_continuity, resolve_week, week_resolved, DEFAULT_GPS_UTC_MS, SECOND_MS,
};
use crate::sink::{lemma_plain_ok, lemma_received_push, received, Sink};
use crate::text::{number_string, number_text};
use rustc_hash::FxHashMap;
use vstd::prelude::*;
use vstd::slice::slice_subrange;

verus! {

// ---- frames ----

/// The length of the frame that `d` begins with, by its length field.
pub open spec fn frame_len(d: Seq<u8>) -> int {
    (d[1] as int % 4) * 256 + d[2] + 6
}

/// The check sum at the end of the frame that `d` begins with.
pub open spec fn frame_crc(d: Seq<u8>) -> int {
    let n = frame_len(d);
    d[n - 3] * 65536 + d[n - 2] * 256 + d[n - 1]
}

/// Whether `d` begins with a complete frame whose check sum is right.
pub open spec fn frame_valid(d: Seq<u8>) -> bool {
    &&& d.len() >= 6
    &&& d[0] == 0xd3
    &&& d.len() >= frame_len(d)
    &&& crc24q(d.take(frame_len(d) - 3)) == frame_crc(d)
}

/// Whether `d` ends before what may be a frame at its beginning does.
pub open spec fn frame_incomplete(d: Seq<u8>) -> bool {
    d.len() < 6 || (d[0] == 0xd3 && d.len() < frame_len(d))
}

/// What the framer finds in `d` from position `i` on: the number of bytes up to
/// the end of the first valid frame, and the length of that frame. It stops,
/// with none, at a sync byte behind which the data ends too early.
pub open spec fn framed(d: Seq<u8>, i: int) -> (int, Option<int>)
    decreases d.len() - i,
{
    if i < 0 || i >= d.len() {
        (d.len() as int, None)
    } else if d[i] == 0xd3 && frame_valid(d.skip(i)) {
        (i + frame_len(d.skip(i)), Some(frame_len(d.skip(i))))
    } else if d[i] == 0xd3 && frame_incomplete(d.skip(i)) {
        (i, None)
    } else {
        framed(d, i + 1)
    }
}

/// `rtcm_rs::next_msg_frame`: looks for the first frame in `data`. Returns the
/// bytes consumed and the length of the frame. A sync byte behind which the data
/// ends too early stops it there; one that no valid frame begins with is passed
/// over.
#[verifier::external_body]
fn next_frame(data: &[u8]) -> (r: (usize, Option<usize>))
    ensures
        r.0 == framed(data@, 0).0,
        r.1 is Some <==> framed(data@, 0).1 is Some,
        r.1 matches Some(n) ==> framed(data@, 0).1 == Some(n as int),
{
    let (consumed, frame) = rtcm_rs::next_msg_frame(data);
    (consumed, frame.map(|m| m.frame_len()))
}

/// `rtcm_rs::MessageFrame::new`: whether `frame` begins with a complete frame
/// whose check sum is right.
#[verifier::external_body]
fn begins_with_frame(frame: &[u8]) -> (r: bool)
    ensures
        r == frame_valid(frame@),
{
    rtcm_rs::MessageFrame::new(frame).is_ok()
}

/// Where the first valid frame at or after `i` begins; the length of `d` where
/// there is none.
pub open spec fn first_frame(d: Seq<u8>, i: int) -> int
    decreases d.len() - i,
{
    if i < 0 || i >= d.len() {
        d.len() as int
    } else if frame_valid(d.skip(i)) {
        i
    } else {
        first_frame(d, i + 1)
    }
}

pub proof fn lemma_first_frame(d: Seq<u8>, i: int)
    requires
        0 <= i <= d.len(),
    ensures
        i <= first_frame(d, i) <= d.len(),
        first_frame(d, i) < d.len() ==> frame_valid(d.skip(first_frame(d, i))),
        forall|j: int| i <= j < first_frame(d, i) ==> !frame_valid(#[trigger] d.skip(j)),
    decreases d.len() - i,
{
    if i < d.len() && !frame_valid(d.skip(i)) {
        lemma_first_frame(d, i + 1);
    }
}

/// What the framer finds from `base + i` on in `d` is what it finds from `i` on
/// behind `base`.
proof fn lemma_framed(d: Seq<u8>, base: int, i: int)
    requires
        0 <= base <= d.len(),
        0 <= i <= d.len() - base,
    ensures
        ({
            let (n, f) = framed(d.skip(base), i);
            &&& i <= n <= d.len() - base
            &&& f matches Some(len) ==> {
                &&& 6 <= len <= n
                &&& first_frame(d, base + i) == base + n - len
                &&& frame_len(d.skip(base + n - len)) == len
            }
            &&& f is None && n < d.len() - base ==> first_frame(d, base + i) == first_frame(
                d,
                base + n + 1,
            )
            &&& f is None && n == d.len() - base ==> first_frame(d, base + i) == d.len()
        }),
    decreases d.len() - base - i,
{
    let s = d.skip(base);
    if i < s.len() {
        assert(s.skip(i) =~= d.skip(base + i));
        assert(s[i] == d[base + i]);
        assert(d.skip(base + i)[0] == d[base + i]);
        if s[i] == 0xd3 && (frame_valid(s.skip(i)) || frame_incomplete(s.skip(i))) {
        } else {
            lemma_framed(d, base, i + 1);
        }
    }
}

/// Finds the first valid frame at or after `pos`.
fn find_frame(data: &[u8], pos: usize) -> (r: Option<(usize, usize)>)
    requires
        pos <= data@.len(),
    ensures
        r is None <==> first_frame(data@, pos as int) == data@.len(),
        r matches Some((start, len)) ==> {
            &&& start == first_frame(data@, pos as int)
            &&& len == frame_len(data@.skip(start as int))
            &&& pos <= start
            &&& start + len <= data@.len()
            &&& len >= 6
        },
{
    let mut at: usize = pos;
    while at < data.len()
        invariant
            pos <= at <= data@.len(),
            first_frame(data@, pos as int) == first_frame(data@, at as int),
        decreases data@.len() - at,
    {
        let rest = slice_subrange(data, at, data.len());
        assert(rest@ =~= data@.skip(at as int));
        let (consumed, frame) = next_frame(rest);
        proof {
            lemma_framed(data@, at as int, 0);
            lemma_first_frame(data@, at as int);
        }
        match frame {
            Some(len) => {
                return Some((at + consumed - len, len));
            },
            None => {
                if consumed >= rest.len() {
                    return None;
                }
                at = at + consumed + 1;
            },
        }
    }
    None
}

/// Walks over the valid RTCM frames in a byte buffer. Bytes that do not start a
/// valid frame are skipped.
pub struct Frames<'a> {
    data: &'a [u8],
    pos: usize,
}

/// The valid frames in `data`, in order.
pub fn frames(data: &[u8]) -> (r: Frames<'_>)
    ensures
        r.buffer() == data@,
        r.position() == 0,
{
    Frames { data, pos: 0 }
}

impl<'a> Frames<'a> {
    /// The bytes that are walked over.
    pub closed spec fn buffer(self) -> Seq<u8> {
        self.data@
    }

    /// Where the search for the next frame begins.
    pub closed spec fn position(self) -> int {
        self.pos as int
    }

    /// The next valid frame.
    pub fn next(&mut self) -> (r: Option<&'a [u8]>)
        requires
            old(self).position() <= old(self).buffer().len(),
        ensures
            final(self).buffer() == old(self).buffer(),
            final(self).position() <= final(self).buffer().len(),
            ({
                let d = old(self).buffer();
                let start = first_frame(d, old(self).position());
                if start == d.len() {
                    r is None && final(self).position() == d.len()
                } else {
                    &&& r matches Some(f) && f@ == d.subrange(
                        start,
                        start + frame_len(d.skip(start)),
                    )
                    &&& final(self).position() == start + frame_len(d.skip(start))
                }
            }),
    {
        match find_frame(self.data, self.pos) {
            Some((start, len)) => {
                proof {
                    lemma_first_frame(self.data@, self.pos as int);
                }
                let total: usize = self.data.len();
                assert(start + len <= total);
                self.pos = start + len;
                Some(slice_subrange(self.data, start, start + len))
            },
            None => {
                self.pos = self.data.len();
                None
            },
        }
    }
}

/// The valid frames from `i` on in `d`, in order.
pub open spec fn frames_from(d: Seq<u8>, i: int) -> Seq<Seq<u8>>
    decreases d.len() - i,
{
    if i < 0 || i >= d.len() {
        Seq::empty()
    } else if !frame_valid(d.skip(i)) {
        frames_from(d, i + 1)
    } else {
        let end = i + frame_len(d.skip(i));
        seq![d.subrange(i, end)] + frames_from(d, end)
    }
}

/// The frames from a place on are those from the first frame behind it on.
pub proof fn lemma_frames_from(d: Seq<u8>, i: int)
    requires
        0 <= i <= d.len(),
    ensures
        frames_from(d, i) == frames_from(d, first_frame(d, i)),
    decreases d.len() - i,
{
    if i < d.len() && !frame_valid(d.skip(i)) {
        lemma_frames_from(d, i + 1);
    }
}

/// Byte offset of the first valid RTCM frame. `None` if the buffer holds no
/// complete valid frame.
pub fn first_frame_pos(data: &[u8]) -> (r: Option<usize>)
    ensures
        r is None <==> first_frame(data@, 0) == data@.len(),
        r matches Some(i) ==> i == first_frame(data@, 0),
{
    match find_frame(data, 0) {
        Some((start, _)) => Some(start),
        None => None,
    }
}

/// Where the first valid MSM7 frame at or after `i` begins, where each valid
/// frame is passed over as a whole; the length of `d` where there is none.
pub open spec fn first_msm7(d: Seq<u8>, i: int) -> int
    decreases d.len() - i,
{
    if i < 0 || i >= d.len() {
        d.len() as int
    } else if !frame_valid(d.skip(i)) {
        first_msm7(d, i + 1)
    } else if is_msm7(msg_type(d.skip(i))) {
        i
    } else {
        first_msm7(d, i + frame_len(d.skip(i)))
    }
}

pub proof fn lemma_first_msm7(d: Seq<u8>, i: int)
    requires
        0 <= i <= d.len(),
    ensures
        first_msm7(d, i) == first_msm7(d, first_frame(d, i)),
        i <= first_msm7(d, i) <= d.len(),
    decreases d.len() - i,
{
    if i < d.len() {
        if !frame_valid(d.skip(i)) {
            lemma_first_msm7(d, i + 1);
        } else if !is_msm7(msg_type(d.skip(i))) {
            lemma_first_msm7(d, i + frame_len(d.skip(i)));
        }
    }
}

/// Byte offset of the first valid MSM7 frame.
pub fn first_msm7_pos(data: &[u8]) -> (r: Option<usize>)
    ensures
        r is None <==> first_msm7(data@, 0) == data@.len(),
        r matches Some(i) ==> i == first_msm7(data@, 0),
{
    let mut at: usize = 0;
    while at < data.len()
        invariant
            at <= data@.len(),
            first_msm7(data@, 0) == first_msm7(data@, at as int),
        decreases data@.len() - at,
    {
        proof {
            lemma_first_msm7(data@, at as int);
            lemma_first_frame(data@, at as int);
        }
        match find_frame(data, at) {
            None => {
                return None;
            },
            Some((start, len)) => {
                let frame = slice_subrange(data, start, start + len);
                assert(msg_type(frame@) == msg_type(data@.skip(start as int)));
                if is_msm7_frame(frame) {
                    return Some(start);
                }
                at = start + len;
            },
        }
    }
    None
}

/// The 12-bit RTCM message number in a frame header; 0 in one that is too short.
pub open spec fn msg_type(frame: Seq<u8>) -> int {
    if frame.len() <= 5 {
        0
    } else {
        frame[3] * 16 + frame[4] as int / 16
    }
}

/// The 12-bit RTCM message number from a frame header.
pub fn extract_msg_type(frame: &[u8]) -> (r: u16)
    ensures
        r == msg_type(frame@),
{
    if frame.len() <= 5 {
        return 0;
    }
    let hi: u8 = frame[3];
    let lo: u8 = frame[4];
    proof {
        assert((hi as u16) << 4 | (lo as u16) >> 4 == hi as u16 * 16 + lo as u16 / 16)
            by (bit_vector);
    }
    ((hi as u16) << 4) | ((lo as u16) >> 4)
}

/// Whether a message number is that of an MSM7.
pub open spec fn is_msm7(mt: int) -> bool {
    1071 <= mt <= 1137 && mt % 10 == 7
}

/// Whether a frame holds an MSM7.
pub fn is_msm7_frame(frame: &[u8]) -> (r: bool)
    ensures
        r == is_msm7(msg_type(frame@)),
{
    let mt: u16 = extract_msg_type(frame);
    1071 <= mt && mt <= 1137 && mt % 10 == 7
}

// ---- messages ----

/// What a message tells of one satellite. `F` is the type of a scaled field.
#[derive(Clone, Copy, Debug)]
pub struct SatData<F> {
    pub satellite_id: u8,
    /// Whole milliseconds of the rough range (`None`: invalid).
    pub range_int: Option<u8>,
    /// Rough range modulo one millisecond.
    pub range_mod: F,
    /// Rough phase-range rate in metres per second (`None`: invalid).
    pub phase_rate: Option<i16>,
    /// GLONASS frequency channel (`None` outside GLONASS).
    pub glo_channel: Option<i8>,
}

/// What a message tells of one signal of one satellite.
#[derive(Clone, Copy, Debug)]
pub struct SigData<F> {
    pub satellite_id: u8,
    /// The band number of the signal.
    pub band: u8,
    /// The attribute letter of the signal.
    pub attribute: u8,
    /// Fine pseudorange in milliseconds.
    pub pseudorange: Option<F>,
    /// Fine phase range in milliseconds.
    pub phase_range: Option<F>,
    /// Fine phase-range rate in metres per second.
    pub phase_rate: Option<F>,
    /// Lock-time indicator.
    pub lock: u16,
    /// Half-cycle ambiguity.
    pub half_cycle: bool,
    /// Signal strength in dB-Hz (`None`: invalid).
    pub cnr: Option<F>,
}

/// A decoded RTCM message.
#[derive(Debug)]
pub enum Message<F> {
    /// Observations of one system at one epoch.
    Msm { gnss: Gnss, epoch: u32, sats: Vec<SatData<F>>, sigs: Vec<SigData<F>> },
    /// The position of the station.
    Position { station: u16, position: [F; 3] },
    /// The position of the station and the offset of its antenna.
    PositionHeight { station: u16, position: [F; 3], delta: [F; 3] },
    /// The antenna of the station.
    Antenna { station: u16, descriptor: String, serial: String },
    /// System parameters, with the leap seconds where they are known.
    SystemParameters { station: u16, leap: Option<u8> },
    /// The antenna and the receiver of the station.
    Equipment {
        station: u16,
        antenna: String,
        antenna_serial: String,
        receiver: String,
        firmware: String,
        receiver_serial: String,
    },
    /// A message that names the station and nothing else that is kept.
    Station { station: u16 },
    /// A message that is not used.
    Other,
}

/// What is in a [`Message`].
#[verifier::ext_equal]
pub enum MessageView<F> {
    Msm { gnss: Gnss, epoch: u32, sats: Seq<SatData<F>>, sigs: Seq<SigData<F>> },
    Position { station: u16, position: [F; 3] },
    PositionHeight { station: u16, position: [F; 3], delta: [F; 3] },
    Antenna { station: u16, descriptor: Seq<char>, serial: Seq<char> },
    SystemParameters { station: u16, leap: Option<u8> },
    Equipment {
        station: u16,
        antenna: Seq<char>,
        antenna_serial: Seq<char>,
        receiver: Seq<char>,
        firmware: Seq<char>,
        receiver_serial: Seq<char>,
    },
    Station { station: u16 },
    Other,
}

impl<F> View for Message<F> {
    type V = MessageView<F>;

    open spec fn view(&self) -> MessageView<F> {
        match *self {
            Message::Msm { gnss, epoch, sats, sigs } => MessageView::Msm {
                gnss,
                epoch,
                sats: sats@,
                sigs: sigs@,
            },
            Message::Position { station, position } => MessageView::Position { station, position },
            Message::PositionHeight { station, position, delta } => MessageView::PositionHeight {
                station,
                position,
                delta,
            },
            Message::Antenna { station, descriptor, serial } => MessageView::Antenna {
                station,
                descriptor: descriptor@,
                serial: serial@,
            },
            Message::SystemParameters { station, leap } => MessageView::SystemParameters {
                station,
                leap,
            },
            Message::Equipment {
                station,
                antenna,
                antenna_serial,
                receiver,
                firmware,
                receiver_serial,
            } => MessageView::Equipment {
                station,
                antenna: antenna@,
                antenna_serial: antenna_serial@,
                receiver: receiver@,
                firmware: firmware@,
                receiver_serial: receiver_serial@,
            },
            Message::Station { station } => MessageView::Station { station },
            Message::Other => MessageView::Other,
        }
    }
}

/// The values of a cell, computed from its range and phase fields. Those that the
/// fields do not allow are left out, whatever is given for them.
#[derive(Clone, Copy, Debug)]
pub struct CellValues<F, G> {
    pub pr: Option<F>,
    pub cp: Option<F>,
    pub dop: Option<F>,
    /// Whether the Doppler shift is zero.
    pub dop_is_zero: bool,
    pub cn0: Option<G>,
}

/// The values of a cell for which nothing was computed.
pub open spec fn no_cell<F, G>() -> CellValues<F, G> {
    CellValues { pr: None, cp: None, dop: None, dop_is_zero: false, cn0: None }
}

/// The measured quantities of a message, computed from what it holds.
pub struct Numbers<F, G> {
    /// The values of the signals of an MSM7, in their order. Signals behind the last
    /// of them have none.
    pub cells: Vec<CellValues<F, G>>,
    /// The position of the station.
    pub position: Option<[F; 3]>,
    /// The offset of the antenna.
    pub delta: Option<[F; 3]>,
}

/// What is in [`Numbers`].
#[verifier::ext_equal]
pub struct NumbersView<F, G> {
    pub cells: Seq<CellValues<F, G>>,
    pub position: Option<[F; 3]>,
    pub delta: Option<[F; 3]>,
}

impl<F, G> View for Numbers<F, G> {
    type V = NumbersView<F, G>;

    open spec fn view(&self) -> NumbersView<F, G> {
        NumbersView { cells: self.cells@, position: self.position, delta: self.delta }
    }
}

/// The numbers of a message from which nothing was computed.
pub open spec fn no_numbers<F, G>() -> NumbersView<F, G> {
    NumbersView { cells: Seq::empty(), position: None, delta: None }
}

/// The values of signal `i`.
pub open spec fn cell_at<F, G>(cells: Seq<CellValues<F, G>>, i: int) -> CellValues<F, G> {
    if 0 <= i < cells.len() {
        cells[i]
    } else {
        no_cell()
    }
}

/// The values of a cell that its fields allow: a range needs the rough range and its
/// own fine part, a phase and a Doppler shift also a carrier frequency.
pub open spec fn measured<V, F, G>(
    sat: SatData<V>,
    sig: SigData<V>,
    carrier: bool,
    values: CellValues<F, G>,
) -> CellValues<F, G> {
    CellValues {
        pr: if sat.range_int is Some && sig.pseudorange is Some {
            values.pr
        } else {
            None
        },
        cp: if sat.range_int is Some && sig.phase_range is Some && carrier {
            values.cp
        } else {
            None
        },
        dop: if sat.phase_rate is Some && sig.phase_rate is Some && carrier {
            values.dop
        } else {
            None
        },
        dop_is_zero: values.dop_is_zero,
        cn0: if sig.cnr is Some {
            values.cn0
        } else {
            None
        },
    }
}

#[derive(Clone, Copy, Debug, PartialEq, Eq, Structural)]
pub struct Options {
    pub use_spec_phase_range_rate_sign: bool,
    pub omit_zero_do: bool,
}

/// The system letter of a satellite system.
pub open spec fn system_of(gnss: Gnss) -> u8 {
    match gnss {
        Gnss::Gps => 0x47,
        Gnss::Glonass => 0x52,
        Gnss::Galileo => 0x45,
        Gnss::Sbas => 0x53,
        Gnss::Qzss => 0x4a,
        Gnss::Beidou => 0x43,
        Gnss::Irnss => 0x49,
    }
}

/// The number that stands for a satellite system.
pub open spec fn gnss_number(gnss: Gnss) -> u64 {
    system_of(gnss) as u64
}

impl Gnss {
    /// The system letter.
    pub fn rinex_sys(self) -> (r: u8)
        ensures
            r == system_of(self),
    {
        match self {
            Gnss::Gps => 0x47,
            Gnss::Glonass => 0x52,
            Gnss::Galileo => 0x45,
            Gnss::Sbas => 0x53,
            Gnss::Qzss => 0x4a,
            Gnss::Beidou => 0x43,
            Gnss::Irnss => 0x49,
        }
    }

    /// The system of an MSM message number.
    pub fn from_msg_num(n: u16) -> (r: Option<Gnss>)
        requires
            n >= 1,
        ensures
            r == gnss_of_message(n as int),
    {
        match (n - 1) / 10 {
            107 => Some(Gnss::Gps),
            108 => Some(Gnss::Glonass),
            109 => Some(Gnss::Galileo),
            110 => Some(Gnss::Sbas),
            111 => Some(Gnss::Qzss),
            112 => Some(Gnss::Beidou),
            113 => Some(Gnss::Irnss),
            _ => None,
        }
    }
}

/// The system of an MSM message number: each has ten numbers, from 1071 on.
pub open spec fn gnss_of_message(n: int) -> Option<Gnss> {
    if 1071 <= n <= 1080 {
        Some(Gnss::Gps)
    } else if 1081 <= n <= 1090 {
        Some(Gnss::Glonass)
    } else if 1091 <= n <= 1100 {
        Some(Gnss::Galileo)
    } else if 1101 <= n <= 1110 {
        Some(Gnss::Sbas)
    } else if 1111 <= n <= 1120 {
        Some(Gnss::Qzss)
    } else if 1121 <= n <= 1130 {
        Some(Gnss::Beidou)
    } else if 1131 <= n <= 1140 {
        Some(Gnss::Irnss)
    } else {
        None
    }
}

/// The largest satellite number of a system.
pub open spec fn max_satellite(gnss: Gnss) -> int {
    match gnss {
        Gnss::Gps => 63,
        Gnss::Glonass => 24,
        Gnss::Galileo => 50,
        Gnss::Sbas => 39,
        Gnss::Qzss => 10,
        Gnss::Beidou => 63,
        Gnss::Irnss => 14,
    }
}

/// The RINEX number of a satellite; 0 for one that is out of range. SBAS
/// satellites are numbered from 20 on.
pub open spec fn sat_num(gnss: Gnss, id: u8) -> int {
    if 1 <= id <= max_satellite(gnss) {
        if gnss == Gnss::Sbas {
            id + 19
        } else {
            id as int
        }
    } else {
        0
    }
}

/// The RINEX number of a satellite; 0 for one that is out of range.
pub fn rinex_sat_num(gnss: Gnss, sat_id: u8) -> (r: u8)
    ensures
        r == sat_num(gnss, sat_id),
        r <= 63,
{
    let hi: u8 = match gnss {
        Gnss::Gps => 63,
        Gnss::Glonass => 24,
        Gnss::Galileo => 50,
        Gnss::Sbas => 39,
        Gnss::Qzss => 10,
        Gnss::Beidou => 63,
        Gnss::Irnss => 14,
    };
    if sat_id < 1 || sat_id > hi {
        0
    } else {
        match gnss {
            Gnss::Sbas => sat_id + 19,
            _ => sat_id,
        }
    }
}

/// The day and time of day of a GLONASS epoch as one field, with 7 for a day
/// that is not known.
pub open spec fn joined_epoch(day: Option<u8>, tod_ms: u32) -> u32 {
    ((match day {
        Some(d) => d as int,
        None => 7,
    }) * 0x800_0000 + tod_ms) as u32
}

/// The day and time of day of a GLONASS epoch as one field, with 7 for a day
/// that is not known.
pub fn glonass_epoch(day: Option<u8>, tod_ms: u32) -> (r: u32)
    requires
        day matches Some(d) ==> d <= 7,
        tod_ms < 0x800_0000,
    ensures
        crate::rtcm_time::glonass_day(r) == (match day {
            Some(d) => d as int,
            None => 7,
        }),
        crate::rtcm_time::glonass_tod(r) == tod_ms,
        r == joined_epoch(day, tod_ms),
{
    let d: u32 = match day {
        Some(d) => d as u32,
        None => 7,
    };
    let r: u32 = (d << 27) | tod_ms;
    proof {
        assert(r / 0x800_0000 == d && r % 0x800_0000 == tod_ms) by (bit_vector)
            requires
                d <= 7,
                tod_ms < 0x800_0000,
                r == (d << 27) | tod_ms,
        ;
    }
    r
}

// ---- cells ----

/// The satellite and signal of a cell; none where the satellite number or the
/// signal code is not one of RINEX.
pub open spec fn cell_key<F>(gnss: Gnss, sat_number: u8, sig: SigData<F>) -> Option<SignalKey> {
    let code = SigId([(0x30 + sig.band) as u8, sig.attribute]);
    if sat_num(gnss, sat_number) != 0 && sig.band <= 9 && sig_valid(code.0@) {
        Some(
            SignalKey {
                sat: sat_id(system_of(gnss), sat_num(gnss, sat_number) as u8),
                sig: code,
            },
        )
    } else {
        None
    }
}

/// The frequency channel of a GLONASS satellite, where it is one of -7 to 6.
pub open spec fn cell_channel<F>(gnss: Gnss, sat: SatData<F>) -> Option<i8> {
    match sat.glo_channel {
        Some(c) if gnss == Gnss::Glonass && -7 <= c <= 6 => Some(c),
        _ => None,
    }
}

/// A cell whose satellite and signal are known, with its carrier frequency.
#[derive(Clone, Copy, Debug)]
pub struct CellSignal {
    pub key: SignalKey,
    pub frq: Option<i8>,
    pub freq_hz: Option<i64>,
}

/// The satellite, signal and carrier frequency of a cell.
pub fn cell_signal<F: Copy>(gnss: Gnss, sat: &SatData<F>, sig: &SigData<F>) -> (r: Option<CellSignal>)
    ensures
        r is Some <==> cell_key(gnss, sat.satellite_id, *sig) is Some,
        r matches Some(c) ==> {
            &&& Some(c.key) == cell_key(gnss, sat.satellite_id, *sig)
            &&& c.frq == cell_channel(gnss, *sat)
            &&& c.freq_hz is Some <==> carrier_hz(system_of(gnss), c.key.sig.0@[0], c.frq) is Some
            &&& c.freq_hz matches Some(f) ==> carrier_hz(
                system_of(gnss),
                c.key.sig.0@[0],
                c.frq,
            ) == Some(f as int)
        },
{
    let num: u8 = rinex_sat_num(gnss, sat.satellite_id);
    if num == 0 || sig.band > 9 {
        return None;
    }
    let code = SigId([0x30 + sig.band, sig.attribute]);
    if !code.is_valid() {
        return None;
    }
    let sys: u8 = gnss.rinex_sys();
    let frq: Option<i8> = match gnss {
        Gnss::Glonass => match sat.glo_channel {
            Some(c) => if -7 <= c && c <= 6 {
                Some(c)
            } else {
                None
            },
            None => None,
        },
        _ => None,
    };
    Some(
        CellSignal {
            key: SignalKey { sat: SatId::format(sys, num), sig: code },
            frq,
            freq_hz: signal_frequency_hz(sys, code, frq),
        },
    )
}

/// What is remembered of the signals between epochs: the last lock-time
/// indicator of each, and whether a slip waits for an epoch with a phase.
#[verifier::ext_equal]
pub struct Tracks {
    pub lock: Map<u64, u16>,
    pub slip: Map<u64, bool>,
}

impl Tracks {
    /// The last lock-time indicator of a signal, 0 where there was none.
    pub open spec fn lock_of(self, k: SignalKey) -> u16 {
        match fx_value(self.lock, key_number(k)) {
            Some(n) => n,
            None => 0,
        }
    }

    /// Whether a slip of a signal waits for an epoch with a phase.
    pub open spec fn slip_waits(self, k: SignalKey) -> bool {
        match fx_value(self.slip, key_number(k)) {
            Some(b) => b,
            None => false,
        }
    }

    /// Whether a signal with this lock-time indicator has slipped: the indicator
    /// went back, or stands at 0 as it did before, or an earlier slip waits.
    pub open spec fn slipped(self, k: SignalKey, lock: u16) -> bool {
        self.slip_waits(k) || lock < self.lock_of(k) || (lock == 0 && self.lock_of(k) == 0)
    }

    /// What is remembered after an epoch: a slip without a phase goes on waiting.
    pub open spec fn after(self, k: SignalKey, lock: u16, has_phase: bool) -> Tracks {
        Tracks {
            lock: self.lock.insert(key_number(k), lock),
            slip: if self.slipped(k, lock) && !has_phase {
                self.slip.insert(key_number(k), true)
            } else {
                self.slip.remove(key_number(k))
            },
        }
    }
}

/// The observation of a cell.
pub open spec fn cell_observation<V, F, G>(
    tracks: Tracks,
    t: GpsTime,
    key: SignalKey,
    frq: Option<i8>,
    sig: SigData<V>,
    values: CellValues<F, G>,
    opts: Options,
) -> SignalObservation<F, G> {
    SignalObservation {
        t,
        sat: key.sat,
        sig: key.sig,
        v: SignalValues {
            frq,
            pr: values.pr,
            cp: values.cp,
            dop: if opts.omit_zero_do && values.dop_is_zero {
                None
            } else {
                values.dop
            },
            cn0: values.cn0,
            arc: 0,
            hc: sig.half_cycle,
            bt: false,
            ll: values.cp is Some && tracks.slipped(key, sig.lock),
        },
    }
}

/// What one cell does to what is remembered, and the observation it gives, if
/// any: a cell with no code gives none, but is remembered.
pub open spec fn cell_step<V, F, G>(
    tracks: Tracks,
    t: GpsTime,
    gnss: Gnss,
    sat: SatData<V>,
    sig: SigData<V>,
    values: CellValues<F, G>,
    opts: Options,
) -> (Tracks, Option<SignalObservation<F, G>>) {
    match cell_key(gnss, sat.satellite_id, sig) {
        None => (tracks, None),
        Some(k) => {
            let frq = cell_channel(gnss, sat);
            let carrier = carrier_hz(system_of(gnss), k.sig.0@[0], frq) is Some;
            let v = measured(sat, sig, carrier, values);
            let o = cell_observation(tracks, t, k, frq, sig, v, opts);
            (
                tracks.after(k, sig.lock, v.cp is Some),
                if o.any_code() {
                    Some(o)
                } else {
                    None
                },
            )
        },
    }
}

/// Where the first of `sats` with this number stands; their count where there is
/// none.
pub open spec fn sat_index<F>(sats: Seq<SatData<F>>, id: u8, from: int) -> int
    decreases sats.len() - from,
{
    if from < 0 || from >= sats.len() {
        sats.len() as int
    } else if sats[from].satellite_id == id {
        from
    } else {
        sat_index(sats, id, from + 1)
    }
}

/// Finds the first of `sats` with this number.
pub fn find_satellite<F>(sats: &Vec<SatData<F>>, id: u8) -> (r: usize)
    ensures
        r == sat_index(sats@, id, 0),
        r <= sats@.len(),
{
    let mut i: usize = 0;
    while i < sats.len() && sats[i].satellite_id != id
        invariant
            i <= sats@.len(),
            sat_index(sats@, id, 0) == sat_index(sats@, id, i as int),
        decreases sats@.len() - i,
    {
        i += 1;
    }
    i
}

/// What the first `n` cells of a message do to what is remembered, and the
/// observations that they give.
pub open spec fn cells_done<V, F, G>(
    tracks: Tracks,
    t: GpsTime,
    gnss: Gnss,
    sats: Seq<SatData<V>>,
    sigs: Seq<SigData<V>>,
    values: Seq<CellValues<F, G>>,
    opts: Options,
    n: int,
) -> (Tracks, Seq<SignalObservation<F, G>>)
    decreases n,
{
    if n <= 0 {
        (tracks, Seq::empty())
    } else {
        let (tr, os) = cells_done(tracks, t, gnss, sats, sigs, values, opts, n - 1);
        let at = sat_index(sats, sigs[n - 1].satellite_id, 0);
        if at < sats.len() {
            let (tr2, o) = cell_step(
                tr,
                t,
                gnss,
                sats[at],
                sigs[n - 1],
                cell_at(values, n - 1),
                opts,
            );
            (
                tr2,
                match o {
                    Some(o) => os.push(o),
                    None => os,
                },
            )
        } else {
            (tr, os)
        }
    }
}

// ---- metadata ----

/// `s` without the spaces and NULs at its end.
pub open spec fn cleaned(s: Seq<char>) -> Seq<char>
    decreases s.len(),
{
    if s.len() > 0 && (s.last() == ' ' || s.last() == '\0') {
        cleaned(s.drop_last())
    } else {
        s
    }
}

/// Trims trailing spaces and NULs from a descriptor.
pub fn clean(s: &str) -> (r: String)
    ensures
        r@ == cleaned(s@),
{
    let mut n: usize = s.unicode_len();
    assert(s@.subrange(0, n as int) =~= s@);
    while n > 0
        invariant
            n <= s@.len(),
            cleaned(s@) == cleaned(s@.subrange(0, n as int)),
        ensures
            cleaned(s@) == s@.subrange(0, n as int),
        decreases n,
    {
        let c: char = s.get_char(n - 1);
        assert(s@.subrange(0, n as int).last() == c);
        if c != ' ' && c != '\0' {
            break;
        }
        assert(s@.subrange(0, n as int).drop_last() =~= s@.subrange(0, n - 1));
        n -= 1;
    }
    s.substring_char(0, n).to_owned()
}

/// A marker whose number is that of the station.
pub open spec fn marker_of(station: u16) -> MarkerView {
    MarkerView { name: Seq::empty(), number: number_text(station as nat), type_: Seq::empty() }
}

/// A marker carrying just the RTCM reference station id as its number.
pub fn station_marker(reference_station_id: u16) -> (r: Marker)
    ensures
        r@ == marker_of(reference_station_id),
{
    let r = Marker {
        name: String::new(),
        number: number_string(reference_station_id as u64),
        type_: String::new(),
    };
    assert(r@ =~= marker_of(reference_station_id));
    r
}

/// The metadata that a message carries, with the numbers computed from it; none for
/// observations and for messages that are not used.
pub open spec fn message_metadata<V, F, G>(m: MessageView<V>, n: NumbersView<F, G>) -> Option<
    MetadataView<F>,
> {
    match m {
        MessageView::Position { station, position: _ } => Some(
            MetadataView {
                approx_position: n.position,
                marker: marker_of(station),
                ..no_metadata::<F>()
            },
        ),
        MessageView::PositionHeight { station, position: _, delta: _ } => Some(
            MetadataView {
                approx_position: n.position,
                antenna_delta: n.delta,
                marker: marker_of(station),
                ..no_metadata::<F>()
            },
        ),
        MessageView::Antenna { station, descriptor, serial } => Some(
            MetadataView {
                antenna: AntennaView {
                    type_: cleaned(descriptor),
                    number: cleaned(serial),
                },
                marker: marker_of(station),
                ..no_metadata::<F>()
            },
        ),
        MessageView::SystemParameters { station, leap } => Some(
            MetadataView {
                leap_seconds: match leap {
                    Some(s) => Some(s as i16),
                    None => None,
                },
                marker: marker_of(station),
                ..no_metadata::<F>()
            },
        ),
        MessageView::Equipment {
            station,
            antenna,
            antenna_serial,
            receiver,
            firmware,
            receiver_serial,
        } => Some(
            MetadataView {
                antenna: AntennaView {
                    type_: cleaned(antenna),
                    number: cleaned(antenna_serial),
                },
                receiver: ReceiverView {
                    number: cleaned(receiver_serial),
                    type_: cleaned(receiver),
                    version: cleaned(firmware),
                },
                marker: marker_of(station),
                ..no_metadata::<F>()
            },
        ),
        MessageView::Station { station } => Some(
            MetadataView { marker: marker_of(station), ..no_metadata::<F>() },
        ),
        _ => None,
    }
}

/// The metadata that a message carries.
pub fn metadata_of<V, F: Copy, G>(m: &Message<V>, n: &Numbers<F, G>) -> (r: Option<Metadata<F>>)
    ensures
        r is Some <==> message_metadata(m@, n@) is Some,
        r matches Some(x) ==> message_metadata(m@, n@) == Some(x@),
{
    let mut meta: Metadata<F> = Metadata::default();
    match m {
        Message::Position { station, position: _ } => {
            meta.approx_position = n.position;
            meta.marker = station_marker(*station);
        },
        Message::PositionHeight { station, position: _, delta: _ } => {
            meta.approx_position = n.position;
            meta.antenna_delta = n.delta;
            meta.marker = station_marker(*station);
        },
        Message::Antenna { station, descriptor, serial } => {
            meta.antenna = Antenna {
                type_: clean(descriptor.as_str()),
                number: clean(serial.as_str()),
            };
            meta.marker = station_marker(*station);
        },
        Message::SystemParameters { station, leap } => {
            meta.marker = station_marker(*station);
            meta.leap_seconds = match leap {
                Some(s) => Some(*s as i16),
                None => None,
            };
        },
        Message::Equipment {
            station,
            antenna,
            antenna_serial,
            receiver,
            firmware,
            receiver_serial,
        } => {
            meta.antenna = Antenna {
                type_: clean(antenna.as_str()),
                number: clean(antenna_serial.as_str()),
            };
            meta.receiver = Receiver {
                number: clean(receiver_serial.as_str()),
                type_: clean(receiver.as_str()),
                version: clean(firmware.as_str()),
            };
            meta.marker = station_marker(*station);
        },
        Message::Station { station } => {
            meta.marker = station_marker(*station);
        },
        _ => {
            return None;
        },
    }
    assert(message_metadata(m@, n@) =~~= Some(meta@));
    Some(meta)
}

// ---- the converter ----

/// Converts RTCM messages into observations and metadata.
pub struct Converter<S> {
    sink: S,
    opts: Options,
    week: TimeInterval,
    leap_ms: i64,
    time: FxHashMap<u64, GpsTime>,
    lock: FxHashMap<u64, u16>,
    slip: FxHashMap<u64, bool>,
}

/// How the epoch of a message is resolved: against the constraint that comes
/// with it, else by continuity from the last epoch of the same system, else
/// against the last constraint.
pub open spec fn time_resolved(
    offsets: Seq<i64>,
    week: TimeInterval,
    prev: Option<GpsTime>,
    last_week: TimeInterval,
    r: Result<GpsTime>,
) -> bool {
    if !week.zero() {
        week_resolved(offsets, week, r)
    } else {
        match prev {
            Some(p) => exists|k: int|
                nearest_at(offsets, p, k) && r == Ok::<GpsTime, Error>(
                    GpsTime((#[trigger] candidate_after(offsets, p, k) * 10_000) as i64),
                ),
            None => if !last_week.zero() {
                week_resolved(offsets, last_week, r)
            } else {
                r matches Err(Error::Rtcm(m)) && m@ == "RTCM MSM7 epoch needs a week constraint"@
            },
        }
    }
}

impl<S> Converter<S> {
    /// The sink that records go to.
    pub closed spec fn target(self) -> S {
        self.sink
    }

    pub closed spec fn options(self) -> Options {
        self.opts
    }

    /// The last constraint that was not empty.
    pub closed spec fn last_week(self) -> TimeInterval {
        self.week
    }

    /// GPS time minus UTC, in milliseconds.
    pub closed spec fn leap(self) -> int {
        self.leap_ms as int
    }

    /// The last epoch of each system.
    pub closed spec fn epochs(self) -> Map<u64, GpsTime> {
        self.time@
    }

    /// What is remembered of the signals.
    pub closed spec fn tracks(self) -> Tracks {
        Tracks { lock: self.lock@, slip: self.slip@ }
    }

    /// The last epoch of a system.
    pub open spec fn last_epoch(self, gnss: Gnss) -> Option<GpsTime> {
        fx_value(self.epochs(), gnss_number(gnss))
    }

    /// Whether another message can be converted: the epochs so far leave room for
    /// the weeks around them.
    pub open spec fn ready(self) -> bool {
        &&& self.last_week().usable()
        &&& 0 <= self.leap() <= 255_000
        &&& forall|g: Gnss| #[trigger] self.last_epoch(g) matches Some(t) ==> can_continue(t)
    }

    /// The constraint that is remembered after one that comes with a message.
    pub open spec fn week_after(self, week: TimeInterval) -> TimeInterval {
        if week.zero() {
            self.last_week()
        } else {
            week
        }
    }

    /// Whether this is a converter that has converted nothing yet.
    pub open spec fn starts(self, sink: S, opts: Options) -> bool {
        &&& self.target() == sink
        &&& self.options() == opts
        &&& self.last_week().zero()
        &&& self.leap() == DEFAULT_GPS_UTC_MS
        &&& self.epochs() == Map::<u64, GpsTime>::empty()
        &&& self.tracks() == (Tracks { lock: Map::empty(), slip: Map::empty() })
    }

    pub fn new(sink: S, opts: Options) -> (r: Converter<S>)
        ensures
            r.starts(sink, opts),
            r.ready(),
    {
        let r = Converter {
            sink,
            opts,
            week: TimeInterval::default(),
            leap_ms: DEFAULT_GPS_UTC_MS,
            time: FxHashMap::default(),
            lock: FxHashMap::default(),
            slip: FxHashMap::default(),
        };
        assert(r.tracks() =~= (Tracks { lock: Map::empty(), slip: Map::empty() }));
        r
    }

    /// The sink that records go to.
    pub fn sink(&self) -> (r: &S)
        ensures
            *r == self.target(),
    {
        &self.sink
    }

    fn epoch_ready(&self, gnss: Gnss) -> (r: bool)
        ensures
            r == (self.last_epoch(gnss) matches Some(t) ==> can_continue(t)),
    {
        match fx_get(&self.time, gnss.rinex_sys() as u64) {
            Some(t) => -9_000_000_000_000_000_000 <= t.0 && t.0 <= 9_000_000_000_000_000_000,
            None => true,
        }
    }

    /// Whether another message can be converted.
    pub fn is_ready(&self) -> (r: bool)
        ensures
            r == self.ready(),
    {
        let r = self.week.is_usable() && 0 <= self.leap_ms && self.leap_ms <= 255_000
            && self.epoch_ready(Gnss::Gps) && self.epoch_ready(Gnss::Glonass) && self.epoch_ready(
            Gnss::Galileo,
        ) && self.epoch_ready(Gnss::Sbas) && self.epoch_ready(Gnss::Qzss) && self.epoch_ready(
            Gnss::Beidou,
        ) && self.epoch_ready(Gnss::Irnss);
        proof {
            if r {
                assert forall|g: Gnss|
                    #[trigger] self.last_epoch(g) matches Some(t) ==> can_continue(t) by {
                    match g {
                        Gnss::Gps => {},
                        Gnss::Glonass => {},
                        Gnss::Galileo => {},
                        Gnss::Sbas => {},
                        Gnss::Qzss => {},
                        Gnss::Beidou => {},
                        Gnss::Irnss => {},
                    }
                }
            }
        }
        r
    }

    fn set_week(&mut self, week: TimeInterval)
        ensures
            final(self).target() == old(self).target(),
            final(self).options() == old(self).options(),
            final(self).last_week() == old(self).week_after(week),
            final(self).leap() == old(self).leap(),
            final(self).epochs() == old(self).epochs(),
            final(self).tracks() == old(self).tracks(),
    {
        if !week.is_zero() {
            self.week = week;
        }
    }

    /// Detects a carrier-phase slip (loss of lock) and the half-cycle bit of one
    /// cell. A slip on an epoch without phase is deferred to the next epoch that has
    /// it.
    pub fn slip_hc<F>(&mut self, sat: SatId, sig: SigId, s: &SigData<F>, has_phase: bool) -> (r: (
        bool,
        bool,
    ))
        ensures
            r.0 == (has_phase && old(self).tracks().slipped(
                (SignalKey { sat: sat, sig: sig }),
                s.lock,
            )),
            r.1 == s.half_cycle,
            final(self).tracks() == old(self).tracks().after(
                (SignalKey { sat: sat, sig: sig }),
                s.lock,
                has_phase,
            ),
            final(self).target() == old(self).target(),
            final(self).options() == old(self).options(),
            final(self).last_week() == old(self).last_week(),
            final(self).leap() == old(self).leap(),
            final(self).epochs() == old(self).epochs(),
    {
        let k: u64 = (SignalKey { sat, sig }).number();
        let mut slipped: bool = match fx_get(&self.slip, k) {
            Some(b) => b,
            None => false,
        };
        let prev: u16 = match fx_get(&self.lock, k) {
            Some(n) => n,
            None => 0,
        };
        if s.lock < prev || (s.lock == 0 && prev == 0) {
            slipped = true;
        }
        fx_insert(&mut self.lock, k, s.lock);
        if slipped && !has_phase {
            fx_insert(&mut self.slip, k, true);
        } else {
            fx_remove(&mut self.slip, k);
        }
        assert(self.tracks() =~= old(self).tracks().after(
            (SignalKey { sat: sat, sig: sig }),
            s.lock,
            has_phase,
        ));
        (has_phase && slipped, s.half_cycle)
    }

    fn resolve_time(&self, epoch_time: u32, gnss: Gnss, week: TimeInterval) -> (r: Result<GpsTime>)
        requires
            self.ready(),
            week.usable(),
        ensures
            epoch_resolved(*self, epoch_time, gnss, week, r),
            r matches Ok(t) ==> -9_100_000_000_000_000_000 <= t.0 <= 9_100_000_000_000_000_000,
    {
        let offsets = match epoch_week_offsets(epoch_time, gnss, self.leap_ms) {
            Ok(v) => v,
            Err(e) => {
                return Err(e);
            },
        };
        let ghost os = offsets@;
        assert(as_ints(os) == epoch_offsets(gnss, epoch_time, self.leap())->0);
        if !week.is_zero() {
            let r = resolve_week(offsets.as_slice(), week);
            return r;
        }
        match fx_get(&self.time, gnss.rinex_sys() as u64) {
            Some(prev) => {
                assert(self.last_epoch(gnss) == Some(prev));
                let t = resolve_continuity(offsets.as_slice(), prev);
                proof {
                    let k = choose|k: int|
                        nearest_at(os, prev, k) && t.0 == #[trigger] candidate_after(os, prev, k)
                            * 10_000;
                    assert(t == GpsTime((candidate_after(os, prev, k) * 10_000) as i64));
                    lemma_candidate_bounds(os, prev, k);
                    assert(time_resolved(os, week, Some(prev), self.last_week(), Ok(t)));
                }
                Ok(t)
            },
            None => {
                assert(self.last_epoch(gnss) is None);
                if !self.week.is_zero() {
                    resolve_week(offsets.as_slice(), self.week)
                } else {
                    Err(Error::Rtcm("RTCM MSM7 epoch needs a week constraint".to_owned()))
                }
            },
        }
    }
}

proof fn lemma_candidate_bounds(offsets: Seq<i64>, prev: GpsTime, k: int)
    requires
        0 <= k < offsets.len(),
        crate::rtcm_time::offsets_near(offsets),
        can_continue(prev),
    ensures
        -9_100_000_000_000_000_000 <= candidate_after(offsets, prev, k) * 10_000
            <= 9_100_000_000_000_000_000,
{
    assert(-6_048_000_000 <= offsets[k] <= 6_048_000_000);
}

/// How a converter resolves the epoch field of a message.
pub open spec fn epoch_resolved<S>(
    c: Converter<S>,
    epoch: u32,
    gnss: Gnss,
    week: TimeInterval,
    r: Result<GpsTime>,
) -> bool {
    match epoch_offsets(gnss, epoch, c.leap()) {
        None => r matches Err(Error::Rtcm(m)) && m@ == epoch_error(gnss, epoch),
        Some(s) => exists|os: Seq<i64>|
            #[trigger] as_ints(os) == s && time_resolved(
                os,
                week,
                c.last_epoch(gnss),
                c.last_week(),
                r,
            ),
    }
}

/// What the observations of a message whose epoch was resolved to `t` do: the
/// cells are converted in order, up to the first that the sink refuses.
pub open spec fn msm_converted<V, F, G, S: Sink<F, G>>(
    pre: Converter<S>,
    t: GpsTime,
    gnss: Gnss,
    sats: Seq<SatData<V>>,
    sigs: Seq<SigData<V>>,
    values: Seq<CellValues<F, G>>,
    post: Converter<S>,
    r: Result<bool>,
) -> bool {
    &&& post.epochs() == pre.epochs().insert(gnss_number(gnss), t)
    &&& exists|n: int, sent: Result<()>| #[trigger]
        cells_sent(pre, t, gnss, sats, sigs, values, post, r, n, sent)
}

/// What converting the first `n` cells does, the last of which the sink answered
/// with `sent`.
pub open spec fn cells_sent<V, F, G, S: Sink<F, G>>(
    pre: Converter<S>,
    t: GpsTime,
    gnss: Gnss,
    sats: Seq<SatData<V>>,
    sigs: Seq<SigData<V>>,
    values: Seq<CellValues<F, G>>,
    post: Converter<S>,
    r: Result<bool>,
    n: int,
    sent: Result<()>,
) -> bool {
    let done = cells_done(pre.tracks(), t, gnss, sats, sigs, values, pre.options(), n);
    &&& 0 <= n <= sigs.len()
    &&& post.tracks() == done.0
    &&& received::<F, G, S>(pre.target(), done.1, post.target(), sent)
    &&& match sent {
        Ok(_) => n == sigs.len() && r == Ok::<bool, Error>(done.1.len() > 0),
        Err(e) => r == Err::<bool, Error>(e),
    }
}

/// What the observations of a message do: where the epoch cannot be resolved, nothing.
pub open spec fn epoch_converted<V, F, G, S: Sink<F, G>>(
    pre: Converter<S>,
    gnss: Gnss,
    epoch: u32,
    sats: Seq<SatData<V>>,
    sigs: Seq<SigData<V>>,
    values: Seq<CellValues<F, G>>,
    week: TimeInterval,
    post: Converter<S>,
    r: Result<bool>,
) -> bool {
    exists|t: Result<GpsTime>|
        {
            &&& #[trigger] epoch_resolved(pre, epoch, gnss, week, t)
            &&& match t {
                Err(e) => {
                    &&& r == Err::<bool, Error>(e)
                    &&& post.target() == pre.target()
                    &&& post.epochs() == pre.epochs()
                    &&& post.tracks() == pre.tracks()
                },
                Ok(t) => msm_converted(pre, t, gnss, sats, sigs, values, post, r),
            }
        }
}

/// What handing a metadata record to the sink does.
pub open spec fn metadata_sent<F, G, S: Sink<F, G>>(
    pre: Converter<S>,
    m: MetadataView<F>,
    post: Converter<S>,
    r: Result<bool>,
) -> bool {
    &&& post.epochs() == pre.epochs()
    &&& post.tracks() == pre.tracks()
    &&& exists|sent: Result<()>|
        {
            &&& #[trigger] S::metadata_step(pre.target(), m, post.target(), sent)
            &&& match sent {
                Ok(_) => r == Ok::<bool, Error>(true),
                Err(e) => r == Err::<bool, Error>(e),
            }
        }
}

/// What a message does: observations are converted at their resolved epoch,
/// metadata is handed to the sink, and any other message does nothing. Leap
/// seconds are remembered, and so is a constraint.
pub open spec fn message_converted<V, F, G, S: Sink<F, G>>(
    pre: Converter<S>,
    msg: MessageView<V>,
    numbers: NumbersView<F, G>,
    week: TimeInterval,
    post: Converter<S>,
    r: Result<bool>,
) -> bool {
    &&& post.options() == pre.options()
    &&& post.last_week() == pre.week_after(week)
    &&& post.leap() == (match msg {
        MessageView::SystemParameters { station, leap: Some(n) } => n * SECOND_MS,
        _ => pre.leap(),
    })
    &&& match msg {
        MessageView::Msm { gnss, epoch, sats, sigs } => epoch_converted(
            pre,
            gnss,
            epoch,
            sats,
            sigs,
            numbers.cells,
            week,
            post,
            r,
        ),
        MessageView::Other => {
            &&& r == Ok::<bool, Error>(false)
            &&& post.target() == pre.target()
            &&& post.epochs() == pre.epochs()
            &&& post.tracks() == pre.tracks()
        },
        _ => metadata_sent::<F, G, S>(pre, message_metadata(msg, numbers)->0, post, r),
    }
}

impl<S> Converter<S> {
    /// Forwards metadata directly to the sink (for the initial metadata).
    pub fn sink_metadata<F, G>(&mut self, m: &Metadata<F>) -> (r: Result<()>) where S: Sink<F, G>
        ensures
            S::metadata_step(old(self).target(), m@, final(self).target(), r),
            final(self).options() == old(self).options(),
            final(self).last_week() == old(self).last_week(),
            final(self).leap() == old(self).leap(),
            final(self).epochs() == old(self).epochs(),
            final(self).tracks() == old(self).tracks(),
    {
        self.sink.metadata(m)
    }

    /// Flushes the sink.
    pub fn flush<F, G>(&mut self) -> (r: Result<()>) where S: Sink<F, G>
        ensures
            S::flush_step(old(self).target(), final(self).target(), r),
            final(self).options() == old(self).options(),
            final(self).last_week() == old(self).last_week(),
            final(self).leap() == old(self).leap(),
            final(self).epochs() == old(self).epochs(),
            final(self).tracks() == old(self).tracks(),
    {
        self.sink.flush()
    }

    fn emit_metadata<F, G>(&mut self, meta: &Metadata<F>) -> (r: Result<bool>) where S: Sink<F, G>
        ensures
            metadata_sent::<F, G, S>(*old(self), meta@, *final(self), r),
            final(self).options() == old(self).options(),
            final(self).last_week() == old(self).last_week(),
            final(self).leap() == old(self).leap(),
    {
        let sent = self.sink.metadata(meta);
        assert(S::metadata_step(old(self).target(), meta@, self.target(), sent));
        match sent {
            Ok(_) => Ok(true),
            Err(e) => Err(e),
        }
    }

    fn convert_cell<V: Copy, F: Copy, G: Copy>(
        &mut self,
        t: GpsTime,
        gnss: Gnss,
        sat: &SatData<V>,
        sig: &SigData<V>,
        values: &CellValues<F, G>,
    ) -> (r: Result<bool>) where S: Sink<F, G>
        ensures
            ({
                let step = cell_step(
                    old(self).tracks(),
                    t,
                    gnss,
                    *sat,
                    *sig,
                    *values,
                    old(self).options(),
                );
                &&& final(self).tracks() == step.0
                &&& match step.1 {
                    None => final(self).target() == old(self).target() && r == Ok::<bool, Error>(
                        false,
                    ),
                    Some(o) => exists|sent: Result<()>|
                        {
                            &&& #[trigger] S::observation_step(
                                old(self).target(),
                                o,
                                final(self).target(),
                                sent,
                            )
                            &&& match sent {
                                Ok(_) => r == Ok::<bool, Error>(true),
                                Err(e) => r == Err::<bool, Error>(e),
                            }
                        },
                }
            }),
            final(self).options() == old(self).options(),
            final(self).last_week() == old(self).last_week(),
            final(self).leap() == old(self).leap(),
            final(self).epochs() == old(self).epochs(),
    {
        let cell = match cell_signal(gnss, sat, sig) {
            Some(c) => c,
            None => {
                return Ok(false);
            },
        };
        let mut o: SignalObservation<F, G> = SignalObservation {
            t,
            sat: cell.key.sat,
            sig: cell.key.sig,
            v: SignalValues::default(),
        };
        let ghost v = measured(*sat, *sig, cell.freq_hz is Some, *values);
        o.v.frq = cell.frq;
        if sat.range_int.is_some() && sig.pseudorange.is_some() {
            o.v.pr = values.pr;
        }
        if sat.range_int.is_some() && sig.phase_range.is_some() && cell.freq_hz.is_some() {
            o.v.cp = values.cp;
        }
        if sat.phase_rate.is_some() && sig.phase_rate.is_some() && cell.freq_hz.is_some() && (
        !self.opts.omit_zero_do || !values.dop_is_zero) {
            o.v.dop = values.dop;
        }
        if sig.cnr.is_some() {
            o.v.cn0 = values.cn0;
        }
        let (ll, hc) = self.slip_hc(cell.key.sat, cell.key.sig, sig, o.v.cp.is_some());
        o.v.ll = ll;
        o.v.hc = hc;
        assert(o == cell_observation(
            old(self).tracks(),
            t,
            cell.key,
            cell.frq,
            *sig,
            v,
            old(self).options(),
        ));
        if !o.has_any_code() {
            return Ok(false);
        }
        let ghost before = self.target();
        let sent = self.sink.observation(&o);
        assert(S::observation_step(before, o, self.target(), sent));
        match sent {
            Ok(_) => Ok(true),
            Err(e) => Err(e),
        }
    }

    fn convert_msm<V: Copy, F: Copy, G: Copy>(
        &mut self,
        gnss: Gnss,
        epoch_time: u32,
        sats: &Vec<SatData<V>>,
        sigs: &Vec<SigData<V>>,
        values: &[CellValues<F, G>],
        week: TimeInterval,
    ) -> (r: Result<bool>) where S: Sink<F, G>
        requires
            old(self).ready(),
            week.usable(),
        ensures
            epoch_converted(
                *old(self),
                gnss,
                epoch_time,
                sats@,
                sigs@,
                values@,
                week,
                *final(self),
                r,
            ),
            final(self).options() == old(self).options(),
            final(self).last_week() == old(self).week_after(week),
            final(self).leap() == old(self).leap(),
    {
        let resolved = self.resolve_time(epoch_time, gnss, week);
        self.set_week(week);
        let t = match resolved {
            Ok(t) => t,
            Err(e) => {
                assert(epoch_resolved(*old(self), epoch_time, gnss, week, Err(e)));
                return Err(e);
            },
        };
        assert(epoch_resolved(*old(self), epoch_time, gnss, week, Ok(t)));
        fx_insert(&mut self.time, gnss.rinex_sys() as u64, t);
        let ghost tr0 = old(self).tracks();
        let ghost opts = old(self).options();
        let ghost pre = *old(self);
        let mut seen = false;
        let mut i: usize = 0;
        assert(received::<F, G, S>(pre.target(), Seq::empty(), self.target(), Ok(())));
        while i < sigs.len()
            invariant
                i <= sigs@.len(),
                pre == *old(self),
                tr0 == pre.tracks(),
                opts == pre.options(),
                self.options() == opts,
                self.last_week() == pre.week_after(week),
                self.leap() == pre.leap(),
                self.epochs() == pre.epochs().insert(gnss_number(gnss), t),
                self.tracks() == cells_done(tr0, t, gnss, sats@, sigs@, values@, opts, i as int).0,
                received::<F, G, S>(
                    pre.target(),
                    cells_done(tr0, t, gnss, sats@, sigs@, values@, opts, i as int).1,
                    self.target(),
                    Ok(()),
                ),
                seen == (cells_done(tr0, t, gnss, sats@, sigs@, values@, opts, i as int).1.len()
                    > 0),
                epoch_resolved(pre, epoch_time, gnss, week, Ok(t)),
            decreases sigs@.len() - i,
        {
            let ghost done = cells_done(tr0, t, gnss, sats@, sigs@, values@, opts, i as int);
            let ghost next = cells_done(tr0, t, gnss, sats@, sigs@, values@, opts, i + 1);
            let at: usize = find_satellite(sats, sigs[i].satellite_id);
            if at < sats.len() {
                let ghost before = *self;
                let value = if i < values.len() {
                    values[i]
                } else {
                    CellValues { pr: None, cp: None, dop: None, dop_is_zero: false, cn0: None }
                };
                let r = self.convert_cell(t, gnss, &sats[at], &sigs[i], &value);
                proof {
                    let step = cell_step(
                        done.0,
                        t,
                        gnss,
                        sats@[at as int],
                        sigs@[i as int],
                        cell_at(values@, i as int),
                        opts,
                    );
                    if step.1 is Some {
                        let o = step.1->0;
                        let sent = choose|sent: Result<()>|
                            {
                                &&& #[trigger] S::observation_step(
                                    before.target(),
                                    o,
                                    self.target(),
                                    sent,
                                )
                                &&& match sent {
                                    Ok(_) => r == Ok::<bool, Error>(true),
                                    Err(e) => r == Err::<bool, Error>(e),
                                }
                            };
                        lemma_received_push(
                            pre.target(),
                            done.1,
                            before.target(),
                            o,
                            self.target(),
                            sent,
                        );
                        assert(next.1 == done.1.push(o));
                        assert(received::<F, G, S>(pre.target(), next.1, self.target(), sent));
                        lemma_plain_ok(sent);
                    }
                }
                match r {
                    Ok(b) => {
                        if b {
                            seen = true;
                        }
                    },
                    Err(e) => {
                        assert(received::<F, G, S>(pre.target(), next.1, self.target(), Err(e)));
                        assert(cells_sent(
                            pre,
                            t,
                            gnss,
                            sats@,
                            sigs@,
                            values@,
                            *self,
                            Err(e),
                            i + 1,
                            Err(e),
                        ));
                        return Err(e);
                    },
                }
            }
            i += 1;
        }
        assert(cells_sent(
            pre,
            t,
            gnss,
            sats@,
            sigs@,
            values@,
            *self,
            Ok(seen),
            sigs@.len() as int,
            Ok(()),
        ));
        Ok(seen)
    }

    /// Converts one RTCM message. `numbers` holds what was computed from it, `week` is
    /// the epoch constraint of the message. Returns whether an observation or metadata
    /// record was produced.
    pub fn convert_message<V: Copy, F: Copy, G: Copy>(
        &mut self,
        msg: &Message<V>,
        numbers: &Numbers<F, G>,
        week: TimeInterval,
    ) -> (r: Result<bool>) where S: Sink<F, G>
        requires
            old(self).ready(),
            week.usable(),
        ensures
            message_converted(*old(self), msg@, numbers@, week, *final(self), r),
    {
        match msg {
            Message::Msm { gnss, epoch, sats, sigs } => {
                let r = self.convert_msm(
                    *gnss,
                    *epoch,
                    sats,
                    sigs,
                    numbers.cells.as_slice(),
                    week,
                );
                assert(msg@ == MessageView::Msm {
                    gnss: *gnss,
                    epoch: *epoch,
                    sats: sats@,
                    sigs: sigs@,
                });
                assert(message_converted(*old(self), msg@, numbers@, week, *self, r));
                r
            },
            Message::Other => {
                self.set_week(week);
                Ok(false)
            },
            _ => {
                self.set_week(week);
                if let Message::SystemParameters { station: _, leap: Some(n) } = msg {
                    self.leap_ms = *n as i64 * SECOND_MS;
                }
                let ghost pre = *self;
                match metadata_of(msg, numbers) {
                    Some(meta) => {
                        let r = self.emit_metadata(&meta);
                        assert(metadata_sent::<F, G, S>(pre, meta@, *self, r));
                        assert(metadata_sent::<F, G, S>(
                            *old(self),
                            message_metadata(msg@, numbers@)->0,
                            *self,
                            r,
                        ));
                        assert(message_converted(*old(self), msg@, numbers@, week, *self, r));
                        r
                    },
                    None => Ok(false),
                }
            },
        }
    }

    /// Decodes and converts one RTCM frame. `numbers` holds what was computed from its
    /// message. Where `frame` does not begin with a valid frame nothing is converted.
    pub fn convert_frame<F: Copy, G: Copy>(
        &mut self,
        frame: &[u8],
        numbers: &Numbers<F, G>,
        week: TimeInterval,
    ) -> (r: Result<bool>) where S: Sink<F, G>
        requires
            old(self).ready(),
            week.usable(),
        ensures
            message_converted(
                *old(self),
                if frame_valid(frame@) {
                    message_in(frame@)
                } else {
                    MessageView::Other
                },
                numbers@,
                week,
                *final(self),
                r,
            ),
    {
        if begins_with_frame(frame) {
            let msg = decode_message(frame);
            self.convert_message(&msg, numbers, week)
        } else {
            self.set_week(week);
            Ok(false)
        }
    }
}

} // verus!
