//! UBX packets, as the `ublox` crate finds them. A floating-point number that the
//! crate gives is handed on as its bits.

use crate::ubx_frame::{RawMeas, RawRawx};
use std::iter::from_fn;
use ublox::proto23::PacketRef::RxmRawx;
use ublox::Parser;
use ublox::UbxPacket::Proto23;
use vstd::prelude::*;

verus! {

/// What an RXM-RAWX message tells of a signal: the pseudorange, the carrier phase and
/// the Doppler shift, the identifiers of the system, satellite and signal and of the
/// GLONASS frequency, the lock time, the signal strength, the deviation of the phase
/// and the tracking status.
pub type MeasFields = (u64, u64, u32, u8, u8, u8, u8, u16, u8, u8, u8);

/// The time of week, the week and the measurements of an RXM-RAWX message; nothing
/// for any other packet.
pub type PacketFields = Option<(u64, u16, Vec<MeasFields>)>;

/// What is in a packet.
pub open spec fn packet_view(p: PacketFields) -> Option<(u64, u16, Seq<MeasFields>)> {
    match p {
        Some((tow, week, meas)) => Some((tow, week, meas@)),
        None => None,
    }
}

/// What is in packets.
pub open spec fn packet_views(v: Seq<PacketFields>) -> Seq<Option<(u64, u16, Seq<MeasFields>)>> {
    v.map_values(|p: PacketFields| packet_view(p))
}

/// The packets that a `ublox` parser finds in bytes, with those that it refuses.
pub uninterp spec fn ubx_packets(bytes: Seq<u8>) -> Seq<Option<(u64, u16, Seq<MeasFields>)>>;

/// How many bytes a `ublox` parser still holds after it was fed, for a packet that is
/// not complete.
pub uninterp spec fn ubx_unread(bytes: Seq<u8>) -> int;

/// `ublox::Parser::consume_ubx` on a parser that holds nothing, up to the end of what
/// it finds, and `ublox::Parser::buffer_len`: the bytes that it holds then are the
/// last of those that it was fed. What it finds in these and in bytes after them is
/// what it finds after the packets where it is fed all bytes at once.
#[verifier::external_body]
fn consume(bytes: &[u8]) -> (r: (Vec<PacketFields>, usize))
    ensures
        packet_views(r.0@) == ubx_packets(bytes@),
        r.1 == ubx_unread(bytes@),
        r.1 <= bytes@.len(),
        forall|more: Seq<u8>| #[trigger]
            ubx_packets(bytes@ + more) == packet_views(r.0@) + ubx_packets(
                bytes@.skip(bytes@.len() - r.1) + more,
            ),
        forall|more: Seq<u8>| #[trigger]
            ubx_unread(bytes@ + more) == ubx_unread(bytes@.skip(bytes@.len() - r.1) + more),
{
    let mut parser = Parser::default_proto();
    let mut packets = parser.consume_ubx(bytes);
    let found = from_fn(move || Some(match packets.next()? {
        Ok(Proto23(RxmRawx(r))) => Some((r.rcv_tow().to_bits(), r.week(), r.measurements().map(|m| (
            m.pr_mes().to_bits(), m.cp_mes().to_bits(), m.do_mes().to_bits(), m.gnss_id(), m.sv_id(), m.reserved2(),
            m.freq_id(), m.lock_time(), m.cno(), m.cp_stdev().bits(), m.trk_stat().bits())).collect())),
        _ => None,
    })).collect();
    (found, parser.buffer_len())
}

/// What is in an RXM-RAWX message.
pub type RawxView = (u64, u16, Seq<RawMeas>);

/// A measurement of a message.
pub open spec fn meas_in(m: MeasFields) -> RawMeas {
    RawMeas {
        pr_mes: m.0,
        cp_mes: m.1,
        do_mes: m.2,
        gnss_id: m.3,
        sv_id: m.4,
        sig_id: m.5,
        freq_id: m.6,
        lock_time: m.7,
        cno: m.8,
        cp_stdev: m.9,
        trk_stat: m.10,
    }
}

/// The measurements of a message.
pub open spec fn all_meas(v: Seq<MeasFields>) -> Seq<RawMeas> {
    v.map_values(|m: MeasFields| meas_in(m))
}

/// The RXM-RAWX messages among packets.
pub open spec fn rawx_among(v: Seq<Option<(u64, u16, Seq<MeasFields>)>>) -> Seq<RawxView>
    decreases v.len(),
{
    if v.len() == 0 {
        Seq::empty()
    } else {
        let before = rawx_among(v.drop_last());
        match v.last() {
            Some((tow, week, meas)) => before.push((tow, week, all_meas(meas))),
            None => before,
        }
    }
}

/// The RXM-RAWX messages in bytes.
pub open spec fn rawx_in(bytes: Seq<u8>) -> Seq<RawxView> {
    rawx_among(ubx_packets(bytes))
}

/// What a parser that was fed bytes still holds.
pub open spec fn held(bytes: Seq<u8>) -> Seq<u8> {
    bytes.skip(bytes.len() - ubx_unread(bytes))
}

/// Whether bytes may be cut at their end: with more bytes after them, what is found is
/// what is in them, and then what is in the bytes that are still held and in the others.
pub open spec fn may_be_cut(bytes: Seq<u8>) -> bool {
    forall|more: Seq<u8>|
        {
            &&& #[trigger] rawx_in(bytes + more) == rawx_in(bytes) + rawx_in(held(bytes) + more)
            &&& ubx_unread(bytes + more) == ubx_unread(held(bytes) + more)
        }
}

proof fn lemma_rawx_joined(
    a: Seq<Option<(u64, u16, Seq<MeasFields>)>>,
    b: Seq<Option<(u64, u16, Seq<MeasFields>)>>,
)
    ensures
        rawx_among(a + b) == rawx_among(a) + rawx_among(b),
    decreases b.len(),
{
    if b.len() == 0 {
        assert(a + b =~= a);
    } else {
        assert((a + b).drop_last() =~= a + b.drop_last());
        lemma_rawx_joined(a, b.drop_last());
    }
}

/// What is in messages.
pub open spec fn raw_views(v: Seq<RawRawx>) -> Seq<RawxView> {
    v.map_values(|r: RawRawx| (r.rcv_tow, r.week, r.meas@))
}

fn convert_meas(v: &Vec<MeasFields>) -> (r: Vec<RawMeas>)
    ensures
        r@ == all_meas(v@),
{
    let mut out: Vec<RawMeas> = Vec::new();
    let mut i: usize = 0;
    while i < v.len()
        invariant
            i <= v@.len(),
            out@ == all_meas(v@.take(i as int)),
        decreases v@.len() - i,
    {
        let m = v[i];
        out.push(
            RawMeas {
                pr_mes: m.0,
                cp_mes: m.1,
                do_mes: m.2,
                gnss_id: m.3,
                sv_id: m.4,
                sig_id: m.5,
                freq_id: m.6,
                lock_time: m.7,
                cno: m.8,
                cp_stdev: m.9,
                trk_stat: m.10,
            },
        );
        assert(out@ =~= all_meas(v@.take(i + 1)));
        i += 1;
    }
    assert(v@.take(i as int) =~= v@);
    out
}

/// Finds the RXM-RAWX messages in bytes. Gives also how many of the last bytes may
/// belong to a packet that is not complete. Bytes may be cut anywhere: what is held of
/// them, with what comes after, gives the messages that are left.
pub fn find_rawx(bytes: &[u8]) -> (r: (Vec<RawRawx>, usize))
    ensures
        raw_views(r.0@) == rawx_in(bytes@),
        r.1 == ubx_unread(bytes@),
        r.1 <= bytes@.len(),
        may_be_cut(bytes@),
{
    let (packets, unread) = consume(bytes);
    let ghost all = packet_views(packets@);
    proof {
        let tail = held(bytes@);
        assert forall|more: Seq<u8>| {
            &&& #[trigger] rawx_in(bytes@ + more) == rawx_in(bytes@) + rawx_in(tail + more)
            &&& ubx_unread(bytes@ + more) == ubx_unread(tail + more)
        } by {
            assert(ubx_packets(bytes@ + more) == all + ubx_packets(tail + more));
            lemma_rawx_joined(all, ubx_packets(tail + more));
        }
    }
    let mut out: Vec<RawRawx> = Vec::new();
    let mut i: usize = 0;
    assert(all.take(0) =~= Seq::empty());
    assert(raw_views(out@) =~= Seq::empty());
    while i < packets.len()
        invariant
            i <= packets@.len(),
            all == packet_views(packets@),
            raw_views(out@) == rawx_among(all.take(i as int)),
        decreases packets@.len() - i,
    {
        proof {
            assert(all.take(i + 1).drop_last() =~= all.take(i as int));
            assert(all.take(i + 1).last() == packet_view(packets@[i as int]));
        }
        if let Some((tow, week, meas)) = &packets[i] {
            let ghost before = out@;
            out.push(RawRawx { rcv_tow: *tow, week: *week, meas: convert_meas(meas) });
            assert(raw_views(out@) =~= raw_views(before).push((*tow, *week, all_meas(meas@))));
        }
        i += 1;
    }
    assert(all.take(i as int) =~= all);
    (out, unread)
}

} // verus!
