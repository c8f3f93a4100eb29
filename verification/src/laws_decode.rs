//! What a decoded RTCM frame becomes, field by field.

use crate::rtcm::{Message, MessageView, SatData, SigData};
use crate::rtcm_decode::{
    cells_fit, decode_message, fields_1005, fields_1006, fields_1007, fields_1008, fields_1013,
    fields_1033, fields_1230, glonass_cells, msm7_cells, GloSatFields, SatFields, SigFields,
};
use crate::rtcm_time::Gnss;
use vstd::prelude::*;

verus! {

/// The number of the message in a frame.
pub open spec fn numbered(frame: Seq<u8>, n: int) -> bool {
    frame.len() >= 6 && frame[3] * 16 + frame[4] as int / 16 == n
}

/// Whether a satellite has the fields that were decoded for it.
pub open spec fn is_sat(s: SatData<u64>, f: SatFields) -> bool {
    &&& s.satellite_id == f.0 && s.range_int == f.1 && s.range_mod == f.2 && s.phase_rate == f.3
    &&& s.glo_channel is None
}

/// Whether a satellite of GLONASS has the fields that were decoded for it.
pub open spec fn is_glo_sat(s: SatData<u64>, f: GloSatFields) -> bool {
    &&& s.satellite_id == f.0 && s.range_int == f.1 && s.glo_channel == f.2 && s.range_mod == f.3
    &&& s.phase_rate == f.4
}

/// Whether a signal has the fields that were decoded for it.
pub open spec fn is_sig(s: SigData<u64>, f: SigFields) -> bool {
    &&& s.satellite_id == f.0 && s.band == f.1 && s.attribute == f.2 as u8
    &&& s.pseudorange == f.3[0] && s.phase_range == f.3[1] && s.phase_rate == f.3[2] && s.cnr
        == f.3[3]
    &&& s.lock == f.4
    &&& s.half_cycle == (f.5 != 0)
}

/// Whether a message is an MSM7 of a system, with the satellites and signals that were decoded.
pub open spec fn is_msm(
    m: MessageView<u64>,
    system: Gnss,
    time: u32,
    fs: Seq<SatFields>,
    fg: Seq<SigFields>,
) -> bool {
    &&& m matches MessageView::Msm { gnss, epoch, sats, sigs }
    &&& gnss == system && epoch == time
    &&& sats.len() == fs.len() && sigs.len() == fg.len()
    &&& forall|i: int| 0 <= i < sats.len() ==> is_sat(#[trigger] sats[i], fs[i])
    &&& forall|i: int| 0 <= i < sigs.len() ==> is_sig(#[trigger] sigs[i], fg[i])
}

/// An MSM7 is one of the system that its number names, with its fields in their places.
pub proof fn lemma_msm_decoded(frame: &[u8], r: Message<u64>)
    requires
        call_ensures(decode_message, (frame,), r),
        cells_fit(frame@),
        msm7_cells(frame@) is Some,
    ensures
        ({
            let (time, fs, fg) = msm7_cells(frame@)->0;
            &&& numbered(frame@, 1077) ==> is_msm(r@, Gnss::Gps, time, fs, fg)
            &&& numbered(frame@, 1097) ==> is_msm(r@, Gnss::Galileo, time, fs, fg)
            &&& numbered(frame@, 1107) ==> is_msm(r@, Gnss::Sbas, time, fs, fg)
            &&& numbered(frame@, 1117) ==> is_msm(r@, Gnss::Qzss, time, fs, fg)
            &&& numbered(frame@, 1127) ==> is_msm(r@, Gnss::Beidou, time, fs, fg)
            &&& numbered(frame@, 1137) ==> is_msm(r@, Gnss::Irnss, time, fs, fg)
        }),
{
}

/// An MSM7 of GLONASS has the day above the 27 bits of its time of day, 7 where it is not known.
pub proof fn lemma_glonass_decoded(frame: &[u8], r: Message<u64>)
    requires
        call_ensures(decode_message, (frame,), r),
        cells_fit(frame@),
        numbered(frame@, 1087),
        glonass_cells(frame@) is Some,
        ({
            let (day, tod, fs, fg) = glonass_cells(frame@)->0;
            tod < 134_217_728 && (day matches Some(d) ==> d <= 7)
        }),
    ensures
        ({
            let (day, tod, fs, fg) = glonass_cells(frame@)->0;
            &&& r@ matches MessageView::Msm { gnss, epoch, sats, sigs }
            &&& gnss == Gnss::Glonass
            &&& epoch as int % 134_217_728 == tod
            &&& epoch as int / 134_217_728 == (match day {
                Some(d) => d as int,
                None => 7,
            })
            &&& sats.len() == fs.len() && sigs.len() == fg.len()
            &&& forall|i: int| 0 <= i < sats.len() ==> is_glo_sat(#[trigger] sats[i], fs[i])
            &&& forall|i: int| 0 <= i < sigs.len() ==> is_sig(#[trigger] sigs[i], fg[i])
        }),
{
}

/// Messages about the station have their fields in their places.
pub proof fn lemma_station_decoded(frame: &[u8], r: Message<u64>)
    requires
        call_ensures(decode_message, (frame,), r),
    ensures
        numbered(frame@, 1005) ==> (fields_1005(frame@) matches Some((s, p)) ==> (
        r@ matches MessageView::Position { station, position } && station == s && position == p)),
        numbered(frame@, 1006) ==> (fields_1006(frame@) matches Some((s, p, h)) ==> (
        r@ matches MessageView::PositionHeight { station, position, delta } && station == s
            && position == p && delta@ == seq![h, 0u64, 0u64])),
        numbered(frame@, 1007) ==> (fields_1007(frame@) matches Some((s, d)) ==> (
        r@ matches MessageView::Antenna { station, descriptor, serial } && station == s && descriptor
            == d && serial.len() == 0)),
        numbered(frame@, 1008) ==> (fields_1008(frame@) matches Some((s, d, n)) ==> (
        r@ matches MessageView::Antenna { station, descriptor, serial } && station == s && descriptor
            == d && serial == n)),
        numbered(frame@, 1013) ==> (fields_1013(frame@) matches Some((s, l)) ==> (
        r@ matches MessageView::SystemParameters { station, leap } && station == s && leap == l)),
        numbered(frame@, 1033) ==> (fields_1033(frame@) matches Some((s, a, b, c, d, e)) ==> (
        r@ matches MessageView::Equipment {
            station,
            antenna,
            antenna_serial,
            receiver,
            firmware,
            receiver_serial,
        } && station == s && antenna == a && antenna_serial == b && receiver == c && firmware == d
            && receiver_serial == e)),
        numbered(frame@, 1230) ==> (fields_1230(frame@) matches Some(s) ==> (
        r@ matches MessageView::Station { station } && station == s)),
{
}

/// A frame whose fields cannot be decoded is not used, nor is one with another number.
pub proof fn lemma_damaged_ignored(frame: &[u8], r: Message<u64>, n: int)
    requires
        call_ensures(decode_message, (frame,), r),
        numbered(frame@, n),
    ensures
        (n == 1077 || n == 1097 || n == 1107 || n == 1117 || n == 1127 || n == 1137)
            && msm7_cells(frame@) is None ==> r@ is Other,
        n == 1087 && glonass_cells(frame@) is None ==> r@ is Other,
        n == 1005 && fields_1005(frame@) is None ==> r@ is Other,
        n == 1006 && fields_1006(frame@) is None ==> r@ is Other,
        n == 1033 && fields_1033(frame@) is None ==> r@ is Other,
        !(n == 1077 || n == 1087 || n == 1097 || n == 1107 || n == 1117 || n == 1127 || n == 1137
            || n == 1005 || n == 1006 || n == 1007 || n == 1008 || n == 1013 || n == 1033 || n
            == 1230) ==> r@ is Other,
{
}

} // verus!
