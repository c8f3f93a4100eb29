//! Packet inputs: which family of packets a stream belongs to, which lines of a
//! packet log are converted, and what is reported where a packet does not fit.

use crate::columns::{lowered, same_letters};
use crate::error::Result;
use crate::json::{parse_rfc3339_public, rfc3339, sink_answer};
use crate::metadata::Metadata;
use crate::obs::Instant;
use crate::packetlog::{all_hex, hex_bytes, hex_decode, hex_error, Entry};
use crate::rtcm::{
    first_msm7, first_msm7_pos, frame_valid, frames, frames_from, is_msm7, is_msm7_frame,
    lemma_first_frame, lemma_frames_from, message_converted, msg_type, no_numbers, MessageView,
    Numbers, NumbersView, TimeInterval,
};
use crate::rtcm_decode::message_in;
use crate::sink::Sink;
use crate::text::{number_string, number_text, push_bytes, same_bytes, utf8};
use crate::ubx::{chunk_converted, RawxNumbers};
use crate::ubx_decode::{find_rawx, raw_views, rawx_in};
use crate::ubx_frame::{first_rawx, first_rawx_pos, is_rawx_frame, rawx_header, RawRawx};
use crate::week::{
    can_reach_back, interval_before, packet_log_week_constraint, reaches_back, WeekConstraint,
    SECOND_NS,
};
use crate::{rtcm, ubx};
use vstd::prelude::*;
use vstd::slice::slice_subrange;

verus! {

/// What an input holds.
#[derive(Clone, Copy, Debug, PartialEq, Eq, Structural)]
pub enum InputFormat {
    Raw,
    Ubx,
    Rtcm,
    Rinex,
    ObsJson,
}

impl InputFormat {
    /// Whether the input consists of receiver packets.
    pub open spec fn is_packets(self) -> bool {
        self is Raw || self is Ubx || self is Rtcm
    }

    /// Whether the input may hold RTCM.
    pub open spec fn has_rtcm(self) -> bool {
        self is Raw || self is Rtcm
    }

    /// Whether the input may hold UBX.
    pub open spec fn has_ubx(self) -> bool {
        self is Raw || self is Ubx
    }

    pub fn packet_input(self) -> (r: bool)
        ensures
            r == self.is_packets(),
    {
        matches!(self, InputFormat::Raw | InputFormat::Ubx | InputFormat::Rtcm)
    }

    pub fn may_use_rtcm(self) -> (r: bool)
        ensures
            r == self.has_rtcm(),
    {
        matches!(self, InputFormat::Raw | InputFormat::Rtcm)
    }

    pub fn may_use_ubx(self) -> (r: bool)
        ensures
            r == self.has_ubx(),
    {
        matches!(self, InputFormat::Raw | InputFormat::Ubx)
    }
}

/// What is said where an input holds no observation.
pub open spec fn nothing_found(from: InputFormat) -> Seq<char> {
    match from {
        InputFormat::Ubx => "no UBX-RXM-RAWX messages found"@,
        InputFormat::Rtcm => "no RTCM MSM7 messages found"@,
        InputFormat::Raw =>
            "no raw observation packets found (UBX RAWX, RTCM MSM7, UNCB OBSVM, UNCA OBSVMA)"@,
        _ => "no observations found"@,
    }
}

/// What is said where an input holds no observation.
pub fn no_observation_msg(from: InputFormat) -> (r: String)
    ensures
        r@ == nothing_found(from),
{
    match from {
        InputFormat::Ubx => "no UBX-RXM-RAWX messages found".to_owned(),
        InputFormat::Rtcm => "no RTCM MSM7 messages found".to_owned(),
        InputFormat::Raw =>
            "no raw observation packets found (UBX RAWX, RTCM MSM7, UNCB OBSVM, UNCA OBSVMA)".to_owned(),
        _ => "no observations found".to_owned(),
    }
}

// ---- the family of a stream ----

/// A family of packets.
#[derive(Clone, Copy, Debug, PartialEq, Eq, Structural)]
pub enum FamilyKind {
    Rtcm,
    Ubx,
}

/// The family of a raw stream: that of its first observation, an MSM7 or an
/// RXM-RAWX message; where both are at the same place, RTCM.
pub open spec fn raw_family(d: Seq<u8>) -> Option<FamilyKind> {
    let r = first_msm7(d, 0);
    let u = first_rawx(d, 0);
    if r == d.len() && u == d.len() {
        None
    } else if r <= u {
        Some(FamilyKind::Rtcm)
    } else {
        Some(FamilyKind::Ubx)
    }
}

/// Picks the family of a raw stream from whichever observation appears first. A
/// valid frame of another kind selects nothing.
pub fn detect_raw_family(data: &[u8]) -> (r: Option<FamilyKind>)
    ensures
        r == raw_family(data@),
{
    proof {
        rtcm::lemma_first_msm7(data@, 0);
        crate::ubx_frame::lemma_first_rawx(data@, 0);
    }
    match (first_msm7_pos(data), first_rawx_pos(data)) {
        (Some(r), Some(u)) => if r <= u {
            Some(FamilyKind::Rtcm)
        } else {
            Some(FamilyKind::Ubx)
        },
        (Some(_), None) => Some(FamilyKind::Rtcm),
        (None, Some(_)) => Some(FamilyKind::Ubx),
        (None, None) => None,
    }
}

/// The family that an input of a format is converted as.
pub open spec fn stream_family(from: InputFormat, d: Seq<u8>) -> Option<FamilyKind> {
    match from {
        InputFormat::Ubx => Some(FamilyKind::Ubx),
        InputFormat::Rtcm => Some(FamilyKind::Rtcm),
        InputFormat::Raw => raw_family(d),
        _ => None,
    }
}

/// The family that an input of a format is converted as.
pub fn stream_kind(from: InputFormat, data: &[u8]) -> (r: Option<FamilyKind>)
    ensures
        r == stream_family(from, data@),
{
    match from {
        InputFormat::Ubx => Some(FamilyKind::Ubx),
        InputFormat::Rtcm => Some(FamilyKind::Rtcm),
        InputFormat::Raw => detect_raw_family(data),
        _ => None,
    }
}

// ---- packet logs ----

/// A packet of a log that is to be converted.
pub struct Packet {
    pub kind: FamilyKind,
    pub payload: Vec<u8>,
    /// The constraint that its timestamp gives; none for UBX.
    pub week: TimeInterval,
}

/// The family that a tag names, as far as an input of a format holds it.
pub open spec fn tag_family(from: InputFormat, tag: Seq<u8>) -> Option<FamilyKind> {
    if tag == utf8("RTCM"@) && from.has_rtcm() {
        Some(FamilyKind::Rtcm)
    } else if tag == utf8("UBX"@) && from.has_ubx() {
        Some(FamilyKind::Ubx)
    } else {
        None
    }
}

/// The family that a tag names, as far as an input of a format holds it.
pub fn tag_matches(from: InputFormat, tag: &str) -> (r: Option<FamilyKind>)
    ensures
        r == tag_family(from, utf8(tag@)),
{
    let t = tag.as_bytes();
    if same_bytes(t, "RTCM".as_bytes()) && from.may_use_rtcm() {
        Some(FamilyKind::Rtcm)
    } else if same_bytes(t, "UBX".as_bytes()) && from.may_use_ubx() {
        Some(FamilyKind::Ubx)
    } else {
        None
    }
}

/// A message about a line of a packet log.
pub open spec fn log_message(line: nat, e: Seq<char>) -> Seq<char> {
    "packet log line "@ + number_text(line) + ": "@ + e
}

/// A message about a line of a packet log.
pub fn log_error(line: u64, e: &str) -> (r: String)
    ensures
        r@ == log_message(line as nat, e@),
{
    let prefix = "packet log line ".to_owned().concat(number_string(line).as_str());
    prefix.concat(": ").concat(e)
}

/// What is said of an RTCM packet without a timestamp.
pub open spec fn no_timestamp(line: nat) -> Seq<char> {
    log_message(line, "RTCM packet log line "@ + number_text(line) + " has no timestamp"@)
}

/// The text of an optional string that is not empty.
pub open spec fn filled(s: Option<String>) -> Option<Seq<char>> {
    match s {
        Some(x) if x@.len() > 0 => Some(x@),
        _ => None,
    }
}

/// Whether a hex string begins with the header of an RXM-RAWX frame: sync
/// `B5 62`, class `02`, id `15`.
pub open spec fn rawx_hex(s: Seq<u8>) -> bool {
    s.len() >= 8 && lowered(s.take(8)) == lowered(utf8("b5620215"@))
}

/// The instant of a packet log entry, where its constraint can be counted.
pub open spec fn logged_at(t: Option<String>) -> Option<Instant> {
    match t {
        Some(s) => match rfc3339(utf8(s@)) {
            Some(d) if reaches_back(d, 60) => Some(d),
            _ => None,
        },
        None => None,
    }
}

/// What is converted of a line of a packet log: nothing of what was sent to the
/// receiver, has no payload, has another tag, or is a UBX frame other than
/// RXM-RAWX.
pub open spec fn logged(from: InputFormat, e: Entry, line: nat) -> std::result::Result<
    Option<(FamilyKind, Seq<u8>, TimeInterval)>,
    Seq<char>,
> {
    let bin = filled(e.bin);
    let ascii = filled(e.ascii);
    let kind = tag_family(from, utf8(e.tag_text()));
    if e.out || (bin is None && ascii is None) || kind is None || (kind == Some(FamilyKind::Ubx)
        && bin is Some && !rawx_hex(utf8(bin->0))) {
        Ok(None)
    } else if kind == Some(FamilyKind::Rtcm) && logged_at(e.t) is None {
        Err(no_timestamp(line))
    } else {
        let week = if kind == Some(FamilyKind::Rtcm) {
            interval_before(logged_at(e.t)->0, 60, 2 * 60 * SECOND_NS)
        } else {
            TimeInterval { start_ns: 0, dur_ns: 0 }
        };
        match bin {
            None => Ok(Some((kind->0, utf8(ascii->0), week))),
            Some(hex) => {
                let s = utf8(hex);
                if s.len() % 2 != 0 {
                    Err(log_message(line, "odd-length hex string"@))
                } else if !all_hex(s) {
                    Err(log_message(line, "invalid hex string: "@ + hex_error(s)))
                } else {
                    Ok(Some((kind->0, hex_bytes(s), week)))
                }
            },
        }
    }
}

fn filled_text(s: &Option<String>) -> (r: Option<&str>)
    ensures
        match filled(*s) {
            Some(t) => r matches Some(x) && x@ == t,
            None => r is None,
        },
{
    match s {
        Some(x) => if x.as_str().is_empty() {
            None
        } else {
            Some(x.as_str())
        },
        None => None,
    }
}

fn log_time(t: &Option<String>) -> (r: Option<Instant>)
    ensures
        r == logged_at(*t),
{
    match t {
        Some(s) => match parse_rfc3339_public(s.as_str()) {
            Some(d) => if can_reach_back(d, 60) {
                Some(d)
            } else {
                None
            },
            None => None,
        },
        None => None,
    }
}

/// Decides what is converted of a line of a packet log.
pub fn packet_log_entry(from: InputFormat, e: &Entry, line: u64) -> (r: std::result::Result<
    Option<Packet>,
    String,
>)
    ensures
        match logged(from, *e, line as nat) {
            Ok(None) => r matches Ok(None),
            Ok(Some(p)) => r matches Ok(Some(q)) && q.kind == p.0 && q.payload@ == p.1 && q.week
                == p.2,
            Err(m) => r matches Err(x) && x@ == m,
        },
{
    if e.out {
        return Ok(None);
    }
    let bin = filled_text(&e.bin);
    let ascii = filled_text(&e.ascii);
    if bin.is_none() && ascii.is_none() {
        return Ok(None);
    }
    let kind = match tag_matches(from, e.tag_str()) {
        Some(k) => k,
        None => return Ok(None),
    };
    if let (FamilyKind::Ubx, Some(hex)) = (kind, bin) {
        let b = hex.as_bytes();
        if b.len() < 8 {
            return Ok(None);
        }
        let head = slice_subrange(b, 0, 8);
        assert(head@ =~= b@.take(8));
        if !same_letters(head, "b5620215".as_bytes()) {
            return Ok(None);
        }
    }
    let week = match kind {
        FamilyKind::Rtcm => match log_time(&e.t) {
            Some(t) => packet_log_week_constraint(t),
            None => {
                let what = "RTCM packet log line ".to_owned().concat(number_string(line).as_str());
                return Err(log_error(line, what.concat(" has no timestamp").as_str()));
            },
        },
        FamilyKind::Ubx => TimeInterval { start_ns: 0, dur_ns: 0 },
    };
    let mut payload: Vec<u8> = Vec::new();
    match bin {
        Some(hex) => match hex_decode(hex, &mut payload) {
            Ok(_) => {},
            Err(m) => return Err(log_error(line, m.as_str())),
        },
        None => if let Some(text) = ascii {
            push_bytes(&mut payload, text.as_bytes());
            assert(payload@ =~= utf8(text@));
        },
    }
    Ok(Some(Packet { kind, payload, week }))
}

// ---- the driver ----

/// The active converter. For raw input it starts pending, holding the sink, and
/// is resolved to a single family by the first packet seen; once resolved it does
/// not switch.
pub enum Family<S> {
    Pending(S),
    Rtcm(rtcm::Converter<S>),
    Ubx(ubx::Converter<S>),
}

impl<S> Family<S> {
    /// The sink that records go to.
    pub open spec fn target(self) -> S {
        match self {
            Family::Pending(s) => s,
            Family::Rtcm(c) => c.target(),
            Family::Ubx(c) => c.target(),
        }
    }

    /// Whether an RTCM message can be converted: where there is an RTCM
    /// converter, it is ready.
    pub open spec fn ready(self) -> bool {
        self matches Family::Rtcm(c) ==> c.ready()
    }
}

/// Drives the conversion of packets of one or the other family.
pub struct PacketDriver<S> {
    pub from: InputFormat,
    pub family: Option<Family<S>>,
    pub rtcm_opts: rtcm::Options,
    pub ubx_opts: ubx::Options,
}

/// Whether a family becomes another by the use of RTCM: a pending one is
/// resolved, others stay.
pub open spec fn rtcm_used<S>(pre: Family<S>, opts: rtcm::Options, post: Family<S>) -> bool {
    match pre {
        Family::Pending(s) => post matches Family::Rtcm(c) && c.starts(s, opts) && c.ready(),
        _ => post == pre,
    }
}

/// Whether a family becomes another by the use of UBX.
pub open spec fn ubx_used<S>(pre: Family<S>, opts: ubx::Options, post: Family<S>) -> bool {
    match pre {
        Family::Pending(s) => post matches Family::Ubx(c) && c.starts(s, opts),
        _ => post == pre,
    }
}

/// What converting an RTCM frame does to a family: nothing but its use where the
/// stream belongs to UBX, in which case there is no result.
pub open spec fn frame_used<F, G, S: Sink<F, G>>(
    mid: Family<S>,
    frame: Seq<u8>,
    numbers: NumbersView<F, G>,
    week: TimeInterval,
    post: Family<S>,
    res: Option<Result<bool>>,
) -> bool {
    match mid {
        Family::Rtcm(c) => post matches Family::Rtcm(d) && (res matches Some(r)
            && message_converted(
            c,
            if frame_valid(frame) {
                message_in(frame)
            } else {
                MessageView::Other
            },
            numbers,
            week,
            d,
            r,
        )),
        _ => post == mid && res is None,
    }
}

/// What converting the messages of UBX bytes does to a family.
pub open spec fn chunk_used<F, G, S: Sink<F, G>>(
    mid: Family<S>,
    data: Seq<u8>,
    numbers: Seq<RawxNumbers<F, G>>,
    post: Family<S>,
    res: Option<Result<u64>>,
) -> bool {
    match mid {
        Family::Ubx(c) => post matches Family::Ubx(d) && (res matches Some(r) && chunk_converted(
            c,
            data,
            numbers,
            d,
            r,
        )),
        _ => post == mid && res is None,
    }
}

/// The constraint of a frame of a stream: only the first frame has one.
pub open spec fn frame_week(wc: WeekConstraint, first: bool) -> TimeInterval {
    if first {
        wc.interval
    } else {
        TimeInterval { start_ns: 0, dur_ns: 0 }
    }
}

/// What is reported of the conversion of a frame of a stream: 1 for an MSM7, 0
/// for another, and the error, behind `errf` for the first frame.
pub open spec fn stream_report(
    res: Option<Result<bool>>,
    msm7: bool,
    first: bool,
    errf: Seq<char>,
    out: std::result::Result<u64, String>,
) -> bool {
    match res {
        None => out == Ok::<u64, String>(0),
        Some(Ok(_)) => out == Ok::<u64, String>(if msm7 { 1 } else { 0 }),
        Some(Err(e)) => out matches Err(m) && m@ == (if first {
            errf + e.message()
        } else {
            e.message()
        }),
    }
}

/// What is reported of the conversion of an RTCM packet of a log.
pub open spec fn payload_report(
    res: Option<Result<bool>>,
    msm7: bool,
    out: std::result::Result<bool, String>,
) -> bool {
    match res {
        None => out == Ok::<bool, String>(false),
        Some(Ok(_)) => out == Ok::<bool, String>(msm7),
        Some(Err(e)) => out matches Err(m) && m@
            == "RTCM epoch does not match packet-log timestamp: "@ + e.message(),
    }
}

/// What is reported of the conversion of UBX messages.
pub open spec fn batch_report(
    res: Option<Result<u64>>,
    out: std::result::Result<u64, String>,
) -> bool {
    match res {
        None => out == Ok::<u64, String>(0),
        Some(Ok(n)) => out == Ok::<u64, String>(n),
        Some(Err(e)) => out matches Err(m) && m@ == e.message(),
    }
}

/// What is reported of the conversion of a UBX packet of a log.
pub open spec fn rawx_report(
    res: Option<Result<u64>>,
    out: std::result::Result<bool, String>,
) -> bool {
    match res {
        None => out == Ok::<bool, String>(false),
        Some(Ok(n)) => out == Ok::<bool, String>(n > 0),
        Some(Err(e)) => out matches Err(m) && m@ == e.message(),
    }
}

/// What was computed from the messages of a packet of a log.
pub enum PacketNumbers<F, G> {
    Rtcm(Numbers<F, G>),
    Ubx(Vec<RawxNumbers<F, G>>),
}

/// Whether the numbers are of the family of a packet, and its constraint can be used.
pub open spec fn can_convert<F, G>(p: Packet, n: PacketNumbers<F, G>) -> bool {
    match n {
        PacketNumbers::Rtcm(_) => p.kind is Rtcm && p.week.usable(),
        PacketNumbers::Ubx(_) => p.kind is Ubx,
    }
}

/// What converting a packet of a log does to a family, and what is reported: whether
/// it gave observations. UBX packets other than RXM-RAWX are passed over.
pub open spec fn payload_converted<F, G, S: Sink<F, G>>(
    pre: Family<S>,
    rtcm_opts: rtcm::Options,
    ubx_opts: ubx::Options,
    p: Packet,
    n: PacketNumbers<F, G>,
    post: Family<S>,
    out: std::result::Result<bool, String>,
) -> bool {
    match n {
        PacketNumbers::Rtcm(numbers) => exists|mid: Family<S>, res: Option<Result<bool>>|
            {
                &&& #[trigger] rtcm_used(pre, rtcm_opts, mid)
                &&& #[trigger] frame_used(mid, p.payload@, numbers@, p.week, post, res)
                &&& payload_report(res, is_msm7(msg_type(p.payload@)), out)
            },
        PacketNumbers::Ubx(numbers) => if !rawx_header(p.payload@) {
            post == pre && out == Ok::<bool, String>(false)
        } else {
            exists|mid: Family<S>, res: Option<Result<u64>>|
                {
                    &&& #[trigger] ubx_used(pre, ubx_opts, mid)
                    &&& #[trigger] chunk_used(mid, p.payload@, numbers@, post, res)
                    &&& rawx_report(res, out)
                }
        },
    }
}

/// What is reported of a line of a log, from what is reported of its packet: an
/// error names the line.
pub open spec fn line_report(
    line: nat,
    r: std::result::Result<bool, String>,
    out: std::result::Result<bool, String>,
) -> bool {
    match r {
        Ok(produced) => out == Ok::<bool, String>(produced),
        Err(e) => out matches Err(m) && m@ == log_message(line, e@),
    }
}

/// The numbers of frame `k` of a stream. Frames behind the last of them have none.
pub open spec fn numbers_at<F, G>(numbers: Seq<Numbers<F, G>>, k: int) -> NumbersView<F, G> {
    if 0 <= k < numbers.len() {
        numbers[k]@
    } else {
        no_numbers()
    }
}

/// What converting a frame of a stream does to a family, and what is reported.
pub open spec fn frame_converted<F, G, S: Sink<F, G>>(
    pre: Family<S>,
    opts: rtcm::Options,
    frame: Seq<u8>,
    numbers: NumbersView<F, G>,
    wc: WeekConstraint,
    first: bool,
    post: Family<S>,
    out: std::result::Result<u64, String>,
) -> bool {
    exists|mid: Family<S>, res: Option<Result<bool>>|
        {
            &&& #[trigger] rtcm_used(pre, opts, mid)
            &&& #[trigger] frame_used(mid, frame, numbers, frame_week(wc, first), post, res)
            &&& stream_report(res, is_msm7(msg_type(frame)), first, wc.errf@, out)
        }
}

/// What converting the first `k` frames of a stream one after the other does to a
/// family, where each is converted; `count` of them are MSM7.
pub open spec fn stream_converted<F, G, S: Sink<F, G>>(
    pre: Family<S>,
    opts: rtcm::Options,
    frames: Seq<Seq<u8>>,
    numbers: Seq<Numbers<F, G>>,
    wc: WeekConstraint,
    k: int,
    post: Family<S>,
    count: int,
) -> bool
    decreases k,
{
    if k <= 0 {
        post == pre && count == 0
    } else {
        let first = k == 1;
        exists|mid: Family<S>, n: u64|
            {
                &&& stream_converted(pre, opts, frames, numbers, wc, k - 1, mid, count - n)
                &&& #[trigger] frame_converted(
                    mid,
                    opts,
                    frames[k - 1],
                    numbers_at(numbers, k - 1),
                    wc,
                    first,
                    post,
                    Ok::<u64, String>(n),
                )
            }
    }
}

/// Whether the conversion of a stream ends at its frame `k`, with `out`: the frames
/// before are converted, and this one fails or comes at a time from which none can
/// be resolved by continuity.
pub open spec fn stream_ends<F, G, S: Sink<F, G>>(
    pre: Family<S>,
    opts: rtcm::Options,
    frames: Seq<Seq<u8>>,
    numbers: Seq<Numbers<F, G>>,
    k: int,
    wc: WeekConstraint,
    post: Family<S>,
    out: std::result::Result<u64, String>,
) -> bool {
    exists|mid: Family<S>, n: int|
        {
            &&& #[trigger] stream_converted(pre, opts, frames, numbers, wc, k, mid, n)
            &&& if mid.ready() {
                frame_converted(
                    mid,
                    opts,
                    frames[k],
                    numbers_at(numbers, k),
                    wc,
                    k == 0,
                    post,
                    out,
                )
            } else {
                post == mid && (out matches Err(m) && m@ == "RTCM epoch out of range"@)
            }
        }
}

/// The bytes that wait for the rest of a UBX packet.
pub open spec fn waiting<S>(f: Family<S>) -> Seq<u8> {
    match f {
        Family::Ubx(c) => c.pending(),
        _ => Seq::empty(),
    }
}

impl<S> PacketDriver<S> {
    /// The active converter.
    pub open spec fn active(self) -> Family<S> {
        self.family->0
    }

    pub open spec fn wf(self) -> bool {
        self.family is Some
    }

    /// Whether nothing but the active converter differs.
    pub open spec fn same_options(self, other: PacketDriver<S>) -> bool {
        self.from == other.from && self.rtcm_opts == other.rtcm_opts && self.ubx_opts
            == other.ubx_opts
    }

    pub fn new(
        from: InputFormat,
        rtcm_opts: rtcm::Options,
        ubx_opts: ubx::Options,
        sink: S,
    ) -> (r: PacketDriver<S>)
        ensures
            r.wf(),
            r.from == from,
            r.rtcm_opts == rtcm_opts,
            r.ubx_opts == ubx_opts,
            match from {
                InputFormat::Ubx => r.active() matches Family::Ubx(c) && c.starts(sink, ubx_opts),
                InputFormat::Rtcm => r.active() matches Family::Rtcm(c) && c.starts(
                    sink,
                    rtcm_opts,
                ) && c.ready(),
                _ => r.active() == Family::Pending(sink),
            },
    {
        let family = match from {
            InputFormat::Ubx => Family::Ubx(ubx::Converter::new(sink, ubx_opts)),
            InputFormat::Rtcm => Family::Rtcm(rtcm::Converter::new(sink, rtcm_opts)),
            _ => Family::Pending(sink),
        };
        PacketDriver { from, family: Some(family), rtcm_opts, ubx_opts }
    }

    /// Resolves a pending sink to the RTCM family; tells whether the stream
    /// belongs to it.
    pub fn use_rtcm(&mut self) -> (r: bool)
        requires
            old(self).wf(),
        ensures
            final(self).wf(),
            final(self).same_options(*old(self)),
            rtcm_used(old(self).active(), old(self).rtcm_opts, final(self).active()),
            r == (final(self).active() is Rtcm),
    {
        match self.family.take() {
            Some(Family::Pending(sink)) => {
                self.family = Some(Family::Rtcm(rtcm::Converter::new(sink, self.rtcm_opts)));
                true
            },
            Some(Family::Rtcm(c)) => {
                self.family = Some(Family::Rtcm(c));
                true
            },
            other => {
                self.family = other;
                false
            },
        }
    }

    /// Resolves a pending sink to the UBX family; tells whether the stream belongs
    /// to it.
    pub fn use_ubx(&mut self) -> (r: bool)
        requires
            old(self).wf(),
        ensures
            final(self).wf(),
            final(self).same_options(*old(self)),
            ubx_used(old(self).active(), old(self).ubx_opts, final(self).active()),
            r == (final(self).active() is Ubx),
    {
        match self.family.take() {
            Some(Family::Pending(sink)) => {
                self.family = Some(Family::Ubx(ubx::Converter::new(sink, self.ubx_opts)));
                true
            },
            Some(Family::Ubx(c)) => {
                self.family = Some(Family::Ubx(c));
                true
            },
            other => {
                self.family = other;
                false
            },
        }
    }

    /// Whether an RTCM message can be converted.
    pub fn is_ready(&self) -> (r: bool)
        requires
            self.wf(),
        ensures
            r == self.active().ready(),
    {
        match &self.family {
            Some(Family::Rtcm(c)) => c.is_ready(),
            _ => true,
        }
    }

    /// Forwards metadata directly to the sink.
    pub fn sink_metadata<F, G>(&mut self, m: &Metadata<F>) -> (out: std::result::Result<
        (),
        String,
    >) where S: Sink<F, G>
        requires
            old(self).wf(),
        ensures
            final(self).wf(),
            final(self).same_options(*old(self)),
            exists|r: Result<()>|
                {
                    &&& #[trigger] S::metadata_step(
                        old(self).active().target(),
                        m@,
                        final(self).active().target(),
                        r,
                    )
                    &&& sink_answer(r, out)
                },
    {
        let r = match self.family.take() {
            Some(Family::Pending(mut s)) => {
                let r = s.metadata(m);
                self.family = Some(Family::Pending(s));
                r
            },
            Some(Family::Rtcm(mut c)) => {
                let r = c.sink_metadata(m);
                self.family = Some(Family::Rtcm(c));
                r
            },
            Some(Family::Ubx(mut c)) => {
                let r = c.sink_metadata(m);
                self.family = Some(Family::Ubx(c));
                r
            },
            None => Ok(()),
        };
        assert(S::metadata_step(old(self).active().target(), m@, self.active().target(), r));
        match r {
            Ok(_) => Ok(()),
            Err(e) => Err(e.to_string()),
        }
    }

    /// Flushes the sink.
    pub fn flush<F, G>(&mut self) -> (out: std::result::Result<(), String>) where S: Sink<F, G>
        requires
            old(self).wf(),
        ensures
            final(self).wf(),
            final(self).same_options(*old(self)),
            exists|r: Result<()>|
                {
                    &&& #[trigger] S::flush_step(
                        old(self).active().target(),
                        final(self).active().target(),
                        r,
                    )
                    &&& sink_answer(r, out)
                },
    {
        let r = match self.family.take() {
            Some(Family::Pending(mut s)) => {
                let r = s.flush();
                self.family = Some(Family::Pending(s));
                r
            },
            Some(Family::Rtcm(mut c)) => {
                let r = c.flush();
                self.family = Some(Family::Rtcm(c));
                r
            },
            Some(Family::Ubx(mut c)) => {
                let r = c.flush();
                self.family = Some(Family::Ubx(c));
                r
            },
            None => Ok(()),
        };
        assert(S::flush_step(old(self).active().target(), self.active().target(), r));
        match r {
            Ok(_) => Ok(()),
            Err(e) => Err(e.to_string()),
        }
    }

    fn convert_rtcm<F: Copy, G: Copy>(
        &mut self,
        frame: &[u8],
        numbers: &Numbers<F, G>,
        week: TimeInterval,
    ) -> (res: Option<Result<bool>>) where S: Sink<F, G>
        requires
            old(self).wf(),
            old(self).active().ready(),
            week.usable(),
        ensures
            final(self).wf(),
            final(self).same_options(*old(self)),
            exists|mid: Family<S>|
                {
                    &&& #[trigger] rtcm_used(old(self).active(), old(self).rtcm_opts, mid)
                    &&& frame_used(mid, frame@, numbers@, week, final(self).active(), res)
                },
    {
        let _ = self.use_rtcm();
        let ghost mid = self.active();
        assert(rtcm_used(old(self).active(), old(self).rtcm_opts, mid));
        match self.family.take() {
            Some(Family::Rtcm(mut c)) => {
                let r = c.convert_frame(frame, numbers, week);
                self.family = Some(Family::Rtcm(c));
                Some(r)
            },
            other => {
                self.family = other;
                None
            },
        }
    }

    /// Converts a frame of an RTCM stream. `numbers` holds what was computed from its
    /// message. The first frame carries the week constraint; the rest are resolved by continuity.
    /// Gives 1 for an MSM7.
    pub fn convert_stream_frame<F: Copy, G: Copy>(
        &mut self,
        frame: &[u8],
        numbers: &Numbers<F, G>,
        wc: &WeekConstraint,
        first: bool,
    ) -> (out: std::result::Result<u64, String>) where S: Sink<F, G>
        requires
            old(self).wf(),
            old(self).active().ready(),
            wc.interval.usable(),
        ensures
            final(self).wf(),
            final(self).same_options(*old(self)),
            exists|mid: Family<S>, res: Option<Result<bool>>|
                {
                    &&& #[trigger] rtcm_used(old(self).active(), old(self).rtcm_opts, mid)
                    &&& #[trigger] frame_used(
                        mid,
                        frame@,
                        numbers@,
                        frame_week(*wc, first),
                        final(self).active(),
                        res,
                    )
                    &&& stream_report(res, is_msm7(msg_type(frame@)), first, wc.errf@, out)
                },
    {
        let msm7 = is_msm7_frame(frame);
        let week = if first {
            wc.interval
        } else {
            TimeInterval { start_ns: 0, dur_ns: 0 }
        };
        assert(week == frame_week(*wc, first));
        let res = self.convert_rtcm(frame, numbers, week);
        let out = match res {
            None => Ok(0),
            Some(Ok(_)) => Ok(
                if msm7 {
                    1
                } else {
                    0
                },
            ),
            Some(Err(ref e)) => if first {
                Err(wc.errf.to_owned().concat(e.to_string().as_str()))
            } else {
                Err(e.to_string())
            },
        };
        assert(stream_report(res, msm7, first, wc.errf@, out));
        out
    }

    /// Converts the frames in the bytes of an RTCM stream and gives the number of MSM7
    /// among them. `numbers` holds what was computed from each. It ends at the first
    /// that fails.
    pub fn convert_rtcm_stream<F: Copy, G: Copy>(
        &mut self,
        data: &[u8],
        numbers: &[Numbers<F, G>],
        wc: &WeekConstraint,
    ) -> (out: std::result::Result<u64, String>) where S: Sink<F, G>
        requires
            old(self).wf(),
            wc.interval.usable(),
        ensures
            final(self).wf(),
            final(self).same_options(*old(self)),
            match out {
                Ok(n) => stream_converted(
                    old(self).active(),
                    old(self).rtcm_opts,
                    frames_from(data@, 0),
                    numbers@,
                    *wc,
                    frames_from(data@, 0).len() as int,
                    final(self).active(),
                    n as int,
                ),
                Err(_) => exists|k: int|
                    0 <= k < frames_from(data@, 0).len() && #[trigger] stream_ends(
                        old(self).active(),
                        old(self).rtcm_opts,
                        frames_from(data@, 0),
                        numbers@,
                        k,
                        *wc,
                        final(self).active(),
                        out,
                    ),
            },
    {
        let ghost all = frames_from(data@, 0);
        let total: usize = data.len();
        let none: Numbers<F, G> = Numbers { cells: Vec::new(), position: None, delta: None };
        assert(none@ =~= no_numbers::<F, G>());
        let mut count: u64 = 0;
        let mut i: usize = 0;
        let mut rest = frames(data);
        assert(all.skip(0) =~= all);
        loop
            invariant
                all == frames_from(data@, 0),
                none@ == no_numbers::<F, G>(),
                i <= all.len(),
                i <= rest.position() <= data@.len(),
                rest.buffer() == data@,
                total == data@.len(),
                all.skip(i as int) == frames_from(data@, rest.position()),
                count <= i,
                self.wf(),
                self.same_options(*old(self)),
                wc.interval.usable(),
                stream_converted(
                    old(self).active(),
                    old(self).rtcm_opts,
                    all,
                    numbers@,
                    *wc,
                    i as int,
                    self.active(),
                    count as int,
                ),
            ensures
                i == all.len(),
            decreases data@.len() - rest.position(),
        {
            proof {
                lemma_frames_from(data@, rest.position());
                lemma_first_frame(data@, rest.position());
            }
            let frame = match rest.next() {
                Some(f) => f,
                None => {
                    assert(all.skip(i as int).len() == 0);
                    break ;
                },
            };
            let ghost mid = self.active();
            let ghost tail = all.skip(i as int);
            assert(tail == seq![frame@] + frames_from(data@, rest.position()));
            assert(i < rest.position());
            assert(all[i as int] == tail[0]);
            let n = if i < numbers.len() {
                &numbers[i]
            } else {
                &none
            };
            let out = if self.is_ready() {
                self.convert_stream_frame(frame, n, wc, i == 0)
            } else {
                Err("RTCM epoch out of range".to_owned())
            };
            match out {
                Ok(n) => {
                    assert(frame_converted(
                        mid,
                        old(self).rtcm_opts,
                        all[i as int],
                        numbers_at(numbers@, i as int),
                        *wc,
                        i == 0,
                        self.active(),
                        Ok::<u64, String>(n),
                    ));
                    assert(n <= 1);
                    count = count + n;
                },
                Err(_) => {
                    assert(stream_ends(
                        old(self).active(),
                        old(self).rtcm_opts,
                        all,
                        numbers@,
                        i as int,
                        *wc,
                        self.active(),
                        out,
                    ));
                    return out;
                },
            }
            proof {
                assert(all.skip(i + 1) =~= tail.skip(1));
                assert(tail.skip(1) =~= frames_from(data@, rest.position()));
            }
            i = i + 1;
        }
        Ok(count)
    }

    /// Converts an RTCM packet of a log, which is a single framed message. Tells
    /// whether it gave observations.
    pub fn convert_rtcm_payload<F: Copy, G: Copy>(
        &mut self,
        payload: &[u8],
        numbers: &Numbers<F, G>,
        week: TimeInterval,
    ) -> (out: std::result::Result<bool, String>) where S: Sink<F, G>
        requires
            old(self).wf(),
            old(self).active().ready(),
            week.usable(),
        ensures
            final(self).wf(),
            final(self).same_options(*old(self)),
            exists|mid: Family<S>, res: Option<Result<bool>>|
                {
                    &&& #[trigger] rtcm_used(old(self).active(), old(self).rtcm_opts, mid)
                    &&& #[trigger] frame_used(
                        mid,
                        payload@,
                        numbers@,
                        week,
                        final(self).active(),
                        res,
                    )
                    &&& payload_report(res, is_msm7(msg_type(payload@)), out)
                },
    {
        let msm7 = is_msm7_frame(payload);
        let res = self.convert_rtcm(payload, numbers, week);
        match res {
            None => Ok(false),
            Some(Ok(_)) => Ok(msm7),
            Some(Err(ref e)) => Err(
                "RTCM epoch does not match packet-log timestamp: ".to_owned().concat(
                    e.to_string().as_str(),
                ),
            ),
        }
    }

    /// The RXM-RAWX messages that UBX bytes complete.
    pub fn ubx_messages(&self, data: &[u8]) -> (r: Vec<RawRawx>)
        requires
            self.wf(),
        ensures
            raw_views(r@) == rawx_in(waiting(self.active()) + data@),
    {
        match &self.family {
            Some(Family::Ubx(c)) => c.messages(data),
            _ => {
                assert(waiting(self.active()) + data@ =~= data@);
                find_rawx(data).0
            },
        }
    }

    /// Converts the RXM-RAWX messages that the bytes of a stream complete. `numbers`
    /// holds what was computed from them. Gives their number.
    pub fn convert_ubx<F: Copy, G: Copy>(&mut self, data: &[u8], numbers: &[RawxNumbers<F, G>]) -> (
    out: std::result::Result<u64, String>) where S: Sink<F, G>
        requires
            old(self).wf(),
        ensures
            final(self).wf(),
            final(self).same_options(*old(self)),
            exists|mid: Family<S>, res: Option<Result<u64>>|
                {
                    &&& #[trigger] ubx_used(old(self).active(), old(self).ubx_opts, mid)
                    &&& #[trigger] chunk_used(mid, data@, numbers@, final(self).active(), res)
                    &&& batch_report(res, out)
                },
    {
        let _ = self.use_ubx();
        let ghost mid = self.active();
        match self.family.take() {
            Some(Family::Ubx(mut c)) => {
                let r = c.convert_chunk(data, numbers);
                self.family = Some(Family::Ubx(c));
                assert(chunk_used(mid, data@, numbers@, self.active(), Some(r)));
                match r {
                    Ok(n) => Ok(n),
                    Err(ref e) => Err(e.to_string()),
                }
            },
            other => {
                self.family = other;
                assert(chunk_used(mid, data@, numbers@, self.active(), None));
                Ok(0)
            },
        }
    }

    /// Converts a UBX packet of a log. `numbers` holds what was computed from the
    /// messages that it completes. Other packets than RXM-RAWX are passed over. Tells
    /// whether it gave observations.
    pub fn convert_ubx_payload<F: Copy, G: Copy>(
        &mut self,
        payload: &[u8],
        numbers: &[RawxNumbers<F, G>],
    ) -> (out: std::result::Result<bool, String>) where S: Sink<F, G>
        requires
            old(self).wf(),
        ensures
            final(self).wf(),
            final(self).same_options(*old(self)),
            !rawx_header(payload@) ==> *final(self) == *old(self) && out == Ok::<bool, String>(
                false,
            ),
            rawx_header(payload@) ==> exists|mid: Family<S>, res: Option<Result<u64>>|
                {
                    &&& #[trigger] ubx_used(old(self).active(), old(self).ubx_opts, mid)
                    &&& #[trigger] chunk_used(mid, payload@, numbers@, final(self).active(), res)
                    &&& rawx_report(res, out)
                },
    {
        if !is_rawx_frame(payload) {
            return Ok(false);
        }
        match self.convert_ubx(payload, numbers) {
            Ok(n) => Ok(n > 0),
            Err(e) => Err(e),
        }
    }

    /// Converts a packet of a log. Tells whether it gave observations.
    pub fn convert_payload<F: Copy, G: Copy>(&mut self, p: &Packet, numbers: &PacketNumbers<F, G>) -> (out:
        std::result::Result<bool, String>) where S: Sink<F, G>
        requires
            old(self).wf(),
            old(self).active().ready(),
            can_convert(*p, *numbers),
        ensures
            final(self).wf(),
            final(self).same_options(*old(self)),
            payload_converted(
                old(self).active(),
                old(self).rtcm_opts,
                old(self).ubx_opts,
                *p,
                *numbers,
                final(self).active(),
                out,
            ),
    {
        match numbers {
            PacketNumbers::Rtcm(n) => self.convert_rtcm_payload(p.payload.as_slice(), n, p.week),
            PacketNumbers::Ubx(n) => self.convert_ubx_payload(p.payload.as_slice(), n.as_slice()),
        }
    }

    /// Converts the packet of a line of a log. Tells whether it gave observations.
    pub fn convert_packet_log<F: Copy, G: Copy>(
        &mut self,
        p: &Packet,
        numbers: &PacketNumbers<F, G>,
        line: u64,
    ) -> (out: std::result::Result<bool, String>) where S: Sink<F, G>
        requires
            old(self).wf(),
            old(self).active().ready(),
            can_convert(*p, *numbers),
        ensures
            final(self).wf(),
            final(self).same_options(*old(self)),
            exists|r: std::result::Result<bool, String>|
                {
                    &&& #[trigger] payload_converted(
                        old(self).active(),
                        old(self).rtcm_opts,
                        old(self).ubx_opts,
                        *p,
                        *numbers,
                        final(self).active(),
                        r,
                    )
                    &&& line_report(line as nat, r, out)
                },
    {
        let r = self.convert_payload(p, numbers);
        match r {
            Ok(produced) => Ok(produced),
            Err(ref e) => Err(log_error(line, e.as_str())),
        }
    }
}

/// Once a stream belongs to a family it stays with it: no use of the other
/// family changes anything.
pub proof fn lemma_family_stays<S>(
    pre: Family<S>,
    rtcm_opts: rtcm::Options,
    ubx_opts: ubx::Options,
    post: Family<S>,
)
    ensures
        pre is Ubx && rtcm_used(pre, rtcm_opts, post) ==> post == pre,
        pre is Rtcm && ubx_used(pre, ubx_opts, post) ==> post == pre,
{
}

} // verus!
