//! RTCM messages, as the `rtcm_rs` crate decodes them. A floating-point number that
//! the crate gives is handed on as its bits.
//!
//! The crate has a type of its own for each message, so that each has a function of
//! its own here.

use crate::msm::{mask_bits_64, msm_places, BitReader};
use crate::rtcm::{
    extract_msg_type, glonass_epoch, joined_epoch, msg_type, Message, MessageView, SatData, SigData,
};
use crate::rtcm_time::Gnss;
use rtcm_rs::{Message as Decoded, MessageFrame};
use vstd::prelude::*;
use vstd::slice::slice_subrange;

verus! {

// ---- what the crate gives ----

/// What an MSM7 tells of a satellite: its number, the whole milliseconds of the
/// rough range and the rest of it, and the rough phase-range rate.
pub type SatFields = (u8, Option<u8>, u64, Option<i16>);

/// What an MSM7 of GLONASS tells of a satellite: its number, the whole milliseconds
/// of the rough range, the frequency channel, the rest of the rough range, and the
/// rough phase-range rate.
pub type GloSatFields = (u8, Option<u8>, Option<i8>, u64, Option<i16>);

/// What an MSM7 tells of a signal: the number of its satellite, its band and
/// attribute, the fine pseudorange, phase range and phase-range rate with the signal
/// strength, the lock-time indicator and the half-cycle ambiguity.
pub type SigFields = (u8, u8, char, [Option<u64>; 4], u16, u8);

/// The epoch, the satellites and the signals of an MSM7.
pub type Cells = (u32, Vec<SatFields>, Vec<SigFields>);

/// The day, the time of day, the satellites and the signals of an MSM7 of GLONASS.
pub type GloCells = (Option<u8>, u32, Vec<GloSatFields>, Vec<SigFields>);

/// Whether the cell mask of an MSM7 has at most 64 places.
pub open spec fn cells_fit(frame: Seq<u8>) -> bool {
    msm_places(frame.skip(3)) <= 64
}

/// What is in the cells of a message.
pub open spec fn cells_view(c: Option<Cells>) -> Option<
    (u32, Seq<SatFields>, Seq<SigFields>),
> {
    match c {
        Some((epoch, sats, sigs)) => Some((epoch, sats@, sigs@)),
        None => None,
    }
}

/// What is in the cells of a message of GLONASS.
pub open spec fn glo_cells_view(c: Option<GloCells>) -> Option<
    (Option<u8>, u32, Seq<GloSatFields>, Seq<SigFields>),
> {
    match c {
        Some((day, tod, sats, sigs)) => Some((day, tod, sats@, sigs@)),
        None => None,
    }
}

/// What `rtcm_rs` decodes the frame of an MSM7 to, other than of GLONASS; nothing
/// where the frame is not valid or its payload is damaged.
pub uninterp spec fn msm7_cells(frame: Seq<u8>) -> Option<
    (u32, Seq<SatFields>, Seq<SigFields>),
>;

/// `rtcm_rs::MessageFrame::get_message` on a frame of message 1077, the MSM7 of GPS.
/// The crate reads the cell mask into 64 bits.
#[verifier::external_body]
fn decode_1077(frame: &[u8]) -> (r: Option<Cells>)
    requires
        msg_type(frame@) == 1077,
        cells_fit(frame@),
    ensures
        cells_view(r) == msm7_cells(frame@),
{
    match MessageFrame::new(frame).ok()?.get_message() {
        Decoded::Msg1077(t) => Some((
            t.gps_epoch_time_ms,
            t.data_segment.satellite_data.iter().map(|s| (
                s.satellite_id, s.gnss_satellite_rough_range_integer_ms,
                s.gnss_satellite_rough_range_mod1ms_ms.to_bits(), s.gnss_satellite_rough_phaserange_rates_m_s)).collect(),
            t.data_segment.signal_data.iter().map(|s| (
                s.satellite_id, s.signal_id.band(), s.signal_id.attribute(),
                [s.gnss_signal_fine_pseudorange_ext_ms, s.gnss_signal_fine_phaserange_ext_ms,
                    s.gnss_signal_fine_phaserange_rate_m_s, s.gnss_signal_cnr_ext_dbhz].map(|x| x.map(|y| y.to_bits())),
                s.gnss_phaserange_lock_time_ext_ind, s.half_cycle_ambiguity_ind)).collect())),
        _ => None,
    }
}

/// `rtcm_rs::MessageFrame::get_message` on a frame of message 1097, the MSM7 of Galileo.
/// The crate reads the cell mask into 64 bits.
#[verifier::external_body]
fn decode_1097(frame: &[u8]) -> (r: Option<Cells>)
    requires
        msg_type(frame@) == 1097,
        cells_fit(frame@),
    ensures
        cells_view(r) == msm7_cells(frame@),
{
    match MessageFrame::new(frame).ok()?.get_message() {
        Decoded::Msg1097(t) => Some((
            t.gal_epoch_time_ms,
            t.data_segment.satellite_data.iter().map(|s| (
                s.satellite_id, s.gnss_satellite_rough_range_integer_ms,
                s.gnss_satellite_rough_range_mod1ms_ms.to_bits(), s.gnss_satellite_rough_phaserange_rates_m_s)).collect(),
            t.data_segment.signal_data.iter().map(|s| (
                s.satellite_id, s.signal_id.band(), s.signal_id.attribute(),
                [s.gnss_signal_fine_pseudorange_ext_ms, s.gnss_signal_fine_phaserange_ext_ms,
                    s.gnss_signal_fine_phaserange_rate_m_s, s.gnss_signal_cnr_ext_dbhz].map(|x| x.map(|y| y.to_bits())),
                s.gnss_phaserange_lock_time_ext_ind, s.half_cycle_ambiguity_ind)).collect())),
        _ => None,
    }
}

/// `rtcm_rs::MessageFrame::get_message` on a frame of message 1107, the MSM7 of SBAS.
/// The crate reads the cell mask into 64 bits.
#[verifier::external_body]
fn decode_1107(frame: &[u8]) -> (r: Option<Cells>)
    requires
        msg_type(frame@) == 1107,
        cells_fit(frame@),
    ensures
        cells_view(r) == msm7_cells(frame@),
{
    match MessageFrame::new(frame).ok()?.get_message() {
        Decoded::Msg1107(t) => Some((
            t.gps_epoch_time_ms,
            t.data_segment.satellite_data.iter().map(|s| (
                s.satellite_id, s.gnss_satellite_rough_range_integer_ms,
                s.gnss_satellite_rough_range_mod1ms_ms.to_bits(), s.gnss_satellite_rough_phaserange_rates_m_s)).collect(),
            t.data_segment.signal_data.iter().map(|s| (
                s.satellite_id, s.signal_id.band(), s.signal_id.attribute(),
                [s.gnss_signal_fine_pseudorange_ext_ms, s.gnss_signal_fine_phaserange_ext_ms,
                    s.gnss_signal_fine_phaserange_rate_m_s, s.gnss_signal_cnr_ext_dbhz].map(|x| x.map(|y| y.to_bits())),
                s.gnss_phaserange_lock_time_ext_ind, s.half_cycle_ambiguity_ind)).collect())),
        _ => None,
    }
}

/// `rtcm_rs::MessageFrame::get_message` on a frame of message 1117, the MSM7 of QZSS.
/// The crate reads the cell mask into 64 bits.
#[verifier::external_body]
fn decode_1117(frame: &[u8]) -> (r: Option<Cells>)
    requires
        msg_type(frame@) == 1117,
        cells_fit(frame@),
    ensures
        cells_view(r) == msm7_cells(frame@),
{
    match MessageFrame::new(frame).ok()?.get_message() {
        Decoded::Msg1117(t) => Some((
            t.qzss_epoch_time_ms,
            t.data_segment.satellite_data.iter().map(|s| (
                s.satellite_id, s.gnss_satellite_rough_range_integer_ms,
                s.gnss_satellite_rough_range_mod1ms_ms.to_bits(), s.gnss_satellite_rough_phaserange_rates_m_s)).collect(),
            t.data_segment.signal_data.iter().map(|s| (
                s.satellite_id, s.signal_id.band(), s.signal_id.attribute(),
                [s.gnss_signal_fine_pseudorange_ext_ms, s.gnss_signal_fine_phaserange_ext_ms,
                    s.gnss_signal_fine_phaserange_rate_m_s, s.gnss_signal_cnr_ext_dbhz].map(|x| x.map(|y| y.to_bits())),
                s.gnss_phaserange_lock_time_ext_ind, s.half_cycle_ambiguity_ind)).collect())),
        _ => None,
    }
}

/// `rtcm_rs::MessageFrame::get_message` on a frame of message 1127, the MSM7 of BeiDou.
/// The crate reads the cell mask into 64 bits.
#[verifier::external_body]
fn decode_1127(frame: &[u8]) -> (r: Option<Cells>)
    requires
        msg_type(frame@) == 1127,
        cells_fit(frame@),
    ensures
        cells_view(r) == msm7_cells(frame@),
{
    match MessageFrame::new(frame).ok()?.get_message() {
        Decoded::Msg1127(t) => Some((
            t.bds_epoch_time_ms,
            t.data_segment.satellite_data.iter().map(|s| (
                s.satellite_id, s.gnss_satellite_rough_range_integer_ms,
                s.gnss_satellite_rough_range_mod1ms_ms.to_bits(), s.gnss_satellite_rough_phaserange_rates_m_s)).collect(),
            t.data_segment.signal_data.iter().map(|s| (
                s.satellite_id, s.signal_id.band(), s.signal_id.attribute(),
                [s.gnss_signal_fine_pseudorange_ext_ms, s.gnss_signal_fine_phaserange_ext_ms,
                    s.gnss_signal_fine_phaserange_rate_m_s, s.gnss_signal_cnr_ext_dbhz].map(|x| x.map(|y| y.to_bits())),
                s.gnss_phaserange_lock_time_ext_ind, s.half_cycle_ambiguity_ind)).collect())),
        _ => None,
    }
}

/// `rtcm_rs::MessageFrame::get_message` on a frame of message 1137, the MSM7 of NavIC.
/// The crate reads the cell mask into 64 bits.
#[verifier::external_body]
fn decode_1137(frame: &[u8]) -> (r: Option<Cells>)
    requires
        msg_type(frame@) == 1137,
        cells_fit(frame@),
    ensures
        cells_view(r) == msm7_cells(frame@),
{
    match MessageFrame::new(frame).ok()?.get_message() {
        Decoded::Msg1137(t) => Some((
            t.navic_epoch_time_ms,
            t.data_segment.satellite_data.iter().map(|s| (
                s.satellite_id, s.gnss_satellite_rough_range_integer_ms,
                s.gnss_satellite_rough_range_mod1ms_ms.to_bits(), s.gnss_satellite_rough_phaserange_rates_m_s)).collect(),
            t.data_segment.signal_data.iter().map(|s| (
                s.satellite_id, s.signal_id.band(), s.signal_id.attribute(),
                [s.gnss_signal_fine_pseudorange_ext_ms, s.gnss_signal_fine_phaserange_ext_ms,
                    s.gnss_signal_fine_phaserange_rate_m_s, s.gnss_signal_cnr_ext_dbhz].map(|x| x.map(|y| y.to_bits())),
                s.gnss_phaserange_lock_time_ext_ind, s.half_cycle_ambiguity_ind)).collect())),
        _ => None,
    }
}

/// What `rtcm_rs` decodes the frame of an MSM7 of GLONASS to; nothing where the frame
/// is not valid or its payload is damaged.
pub uninterp spec fn glonass_cells(frame: Seq<u8>) -> Option<
    (Option<u8>, u32, Seq<GloSatFields>, Seq<SigFields>),
>;

/// `rtcm_rs::MessageFrame::get_message` on a frame of message 1087, the MSM7 of
/// GLONASS. The crate reads the cell mask into 64 bits, the day from 3 bits, of which
/// 7 is none, and the time of day from 27 bits.
#[verifier::external_body]
fn decode_1087(frame: &[u8]) -> (r: Option<GloCells>)
    requires
        msg_type(frame@) == 1087,
        cells_fit(frame@),
    ensures
        glo_cells_view(r) == glonass_cells(frame@),
        r matches Some((day, tod, _, _)) ==> tod < 0x800_0000 && (day matches Some(d) ==> d < 7),
{
    match MessageFrame::new(frame).ok()?.get_message() {
        Decoded::Msg1087(t) => Some((
            t.glo_day_of_week, t.glo_epoch_time_ms,
            t.data_segment.satellite_data.iter().map(|s| (
                s.satellite_id, s.gnss_satellite_rough_range_integer_ms, s.glonass_satellite_frequency_channel_number,
                s.gnss_satellite_rough_range_mod1ms_ms.to_bits(), s.gnss_satellite_rough_phaserange_rates_m_s)).collect(),
            t.data_segment.signal_data.iter().map(|s| (
                s.satellite_id, s.signal_id.band(), s.signal_id.attribute(),
                [s.gnss_signal_fine_pseudorange_ext_ms, s.gnss_signal_fine_phaserange_ext_ms,
                    s.gnss_signal_fine_phaserange_rate_m_s, s.gnss_signal_cnr_ext_dbhz].map(|x| x.map(|y| y.to_bits())),
                s.gnss_phaserange_lock_time_ext_ind, s.half_cycle_ambiguity_ind)).collect())),
        _ => None,
    }
}

/// What `rtcm_rs` decodes a frame of message 1005 to: the station and its position.
pub uninterp spec fn fields_1005(frame: Seq<u8>) -> Option<(u16, [u64; 3])>;

/// `rtcm_rs::MessageFrame::get_message` on a frame of message 1005.
#[verifier::external_body]
fn decode_1005(frame: &[u8]) -> (r: Option<(u16, [u64; 3])>)
    requires
        msg_type(frame@) == 1005,
    ensures
        r == fields_1005(frame@),
{
    match MessageFrame::new(frame).ok()?.get_message() {
        Decoded::Msg1005(t) => Some((
            t.reference_station_id,
            [
                t.antenna_ref_point_ecef_x_m.to_bits(),
                t.antenna_ref_point_ecef_y_m.to_bits(),
                t.antenna_ref_point_ecef_z_m.to_bits(),
            ],
        )),
        _ => None,
    }
}

/// What `rtcm_rs` decodes a frame of message 1006 to: the station, its position and
/// the height of its antenna.
pub uninterp spec fn fields_1006(frame: Seq<u8>) -> Option<(u16, [u64; 3], u64)>;

/// `rtcm_rs::MessageFrame::get_message` on a frame of message 1006.
#[verifier::external_body]
fn decode_1006(frame: &[u8]) -> (r: Option<(u16, [u64; 3], u64)>)
    requires
        msg_type(frame@) == 1006,
    ensures
        r == fields_1006(frame@),
{
    match MessageFrame::new(frame).ok()?.get_message() {
        Decoded::Msg1006(t) => Some((
            t.reference_station_id,
            [
                t.antenna_ref_point_ecef_x_m.to_bits(),
                t.antenna_ref_point_ecef_y_m.to_bits(),
                t.antenna_ref_point_ecef_z_m.to_bits(),
            ],
            t.antenna_height_m.to_bits(),
        )),
        _ => None,
    }
}

/// What `rtcm_rs` decodes a frame of message 1007 to: the station and the characters
/// of the descriptor of its antenna.
pub uninterp spec fn fields_1007(frame: Seq<u8>) -> Option<(u16, Seq<char>)>;

/// `rtcm_rs::MessageFrame::get_message` on a frame of message 1007.
#[verifier::external_body]
fn decode_1007(frame: &[u8]) -> (r: Option<(u16, String)>)
    requires
        msg_type(frame@) == 1007,
    ensures
        match r {
            Some((station, descriptor)) => fields_1007(frame@) == Some((station, descriptor@)),
            None => fields_1007(frame@) is None,
        },
{
    match MessageFrame::new(frame).ok()?.get_message() {
        Decoded::Msg1007(t) => Some((
            t.reference_station_id,
            t.antenna_descriptor_str.chars().collect(),
        )),
        _ => None,
    }
}

/// What `rtcm_rs` decodes a frame of message 1008 to: the station and the characters
/// of the descriptor and the serial number of its antenna.
pub uninterp spec fn fields_1008(frame: Seq<u8>) -> Option<(u16, Seq<char>, Seq<char>)>;

/// `rtcm_rs::MessageFrame::get_message` on a frame of message 1008.
#[verifier::external_body]
fn decode_1008(frame: &[u8]) -> (r: Option<(u16, String, String)>)
    requires
        msg_type(frame@) == 1008,
    ensures
        match r {
            Some((station, descriptor, serial)) => fields_1008(frame@) == Some(
                (station, descriptor@, serial@),
            ),
            None => fields_1008(frame@) is None,
        },
{
    match MessageFrame::new(frame).ok()?.get_message() {
        Decoded::Msg1008(t) => Some((
            t.reference_station_id,
            t.antenna_descriptor_str.chars().collect(),
            t.antenna_serial_number_str.chars().collect(),
        )),
        _ => None,
    }
}

/// What `rtcm_rs` decodes a frame of message 1013 to: the station and the leap
/// seconds.
pub uninterp spec fn fields_1013(frame: Seq<u8>) -> Option<(u16, Option<u8>)>;

/// `rtcm_rs::MessageFrame::get_message` on a frame of message 1013.
#[verifier::external_body]
fn decode_1013(frame: &[u8]) -> (r: Option<(u16, Option<u8>)>)
    requires
        msg_type(frame@) == 1013,
    ensures
        r == fields_1013(frame@),
{
    match MessageFrame::new(frame).ok()?.get_message() {
        Decoded::Msg1013(t) => Some((t.reference_station_id, t.leap_seconds_gps_utc_s)),
        _ => None,
    }
}

/// What `rtcm_rs` decodes a frame of message 1033 to: the station and the characters
/// of the descriptor and serial number of its antenna and of the descriptor, firmware
/// version and serial number of its receiver.
pub uninterp spec fn fields_1033(frame: Seq<u8>) -> Option<
    (u16, Seq<char>, Seq<char>, Seq<char>, Seq<char>, Seq<char>),
>;

/// `rtcm_rs::MessageFrame::get_message` on a frame of message 1033.
#[verifier::external_body]
fn decode_1033(frame: &[u8]) -> (r: Option<(u16, String, String, String, String, String)>)
    requires
        msg_type(frame@) == 1033,
    ensures
        match r {
            Some((station, a, b, c, d, e)) => fields_1033(frame@) == Some(
                (station, a@, b@, c@, d@, e@),
            ),
            None => fields_1033(frame@) is None,
        },
{
    match MessageFrame::new(frame).ok()?.get_message() {
        Decoded::Msg1033(t) => Some((
            t.reference_station_id,
            t.antenna_descriptor_str.chars().collect(),
            t.antenna_serial_number_str.chars().collect(),
            t.receiver_type_descriptor_str.chars().collect(),
            t.receiver_firmware_version_str.chars().collect(),
            t.receiver_serial_number_str.chars().collect(),
        )),
        _ => None,
    }
}

/// What `rtcm_rs` decodes a frame of message 1230 to: the station.
pub uninterp spec fn fields_1230(frame: Seq<u8>) -> Option<u16>;

/// `rtcm_rs::MessageFrame::get_message` on a frame of message 1230.
#[verifier::external_body]
fn decode_1230(frame: &[u8]) -> (r: Option<u16>)
    requires
        msg_type(frame@) == 1230,
    ensures
        r == fields_1230(frame@),
{
    match MessageFrame::new(frame).ok()?.get_message() {
        Decoded::Msg1230(t) => Some(t.reference_station_id),
        _ => None,
    }
}

// ---- what it means ----

/// A satellite of a message.
pub open spec fn sat_of(s: SatFields) -> SatData<u64> {
    SatData {
        satellite_id: s.0,
        range_int: s.1,
        range_mod: s.2,
        phase_rate: s.3,
        glo_channel: None,
    }
}

/// A satellite of a message of GLONASS.
pub open spec fn glo_sat_of(s: GloSatFields) -> SatData<u64> {
    SatData {
        satellite_id: s.0,
        range_int: s.1,
        range_mod: s.3,
        phase_rate: s.4,
        glo_channel: s.2,
    }
}

/// A signal of a message.
pub open spec fn sig_of(s: SigFields) -> SigData<u64> {
    SigData {
        satellite_id: s.0,
        band: s.1,
        attribute: s.2 as u8,
        pseudorange: s.3[0],
        phase_range: s.3[1],
        phase_rate: s.3[2],
        lock: s.4,
        half_cycle: s.5 != 0,
        cnr: s.3[3],
    }
}

/// The satellites of a message.
pub open spec fn sats_of(v: Seq<SatFields>) -> Seq<SatData<u64>> {
    v.map_values(|s: SatFields| sat_of(s))
}

/// The satellites of a message of GLONASS.
pub open spec fn glo_sats_of(v: Seq<GloSatFields>) -> Seq<SatData<u64>> {
    v.map_values(|s: GloSatFields| glo_sat_of(s))
}

/// The signals of a message.
pub open spec fn sigs_of(v: Seq<SigFields>) -> Seq<SigData<u64>> {
    v.map_values(|s: SigFields| sig_of(s))
}

/// The message of an MSM7 other than of GLONASS.
pub open spec fn msm_of(gnss: Gnss, frame: Seq<u8>) -> MessageView<u64> {
    match msm7_cells(frame) {
        Some((epoch, sats, sigs)) if cells_fit(frame) => MessageView::Msm {
            gnss,
            epoch,
            sats: sats_of(sats),
            sigs: sigs_of(sigs),
        },
        _ => MessageView::Other,
    }
}

/// The message of an MSM7 of GLONASS.
pub open spec fn glonass_msm(frame: Seq<u8>) -> MessageView<u64> {
    match glonass_cells(frame) {
        Some((day, tod, sats, sigs)) if cells_fit(frame) => MessageView::Msm {
            gnss: Gnss::Glonass,
            epoch: joined_epoch(day, tod),
            sats: glo_sats_of(sats),
            sigs: sigs_of(sigs),
        },
        _ => MessageView::Other,
    }
}

/// The message of a frame that tells of the station; one that is damaged is not used.
/// The offset of the antenna is its height: the bits of the number 0 are 0.
pub open spec fn station_message(frame: Seq<u8>) -> MessageView<u64> {
    let n = msg_type(frame);
    if n == 1005 {
        match fields_1005(frame) {
            Some((station, position)) => MessageView::Position { station, position },
            None => MessageView::Other,
        }
    } else if n == 1006 {
        match fields_1006(frame) {
            Some((station, position, height)) => MessageView::PositionHeight {
                station,
                position,
                delta: [height, 0, 0],
            },
            None => MessageView::Other,
        }
    } else if n == 1007 {
        match fields_1007(frame) {
            Some((station, descriptor)) => MessageView::Antenna {
                station,
                descriptor,
                serial: Seq::empty(),
            },
            None => MessageView::Other,
        }
    } else if n == 1008 {
        match fields_1008(frame) {
            Some((station, descriptor, serial)) => MessageView::Antenna {
                station,
                descriptor,
                serial,
            },
            None => MessageView::Other,
        }
    } else if n == 1013 {
        match fields_1013(frame) {
            Some((station, leap)) => MessageView::SystemParameters { station, leap },
            None => MessageView::Other,
        }
    } else if n == 1033 {
        match fields_1033(frame) {
            Some((station, a, b, c, d, e)) => MessageView::Equipment {
                station,
                antenna: a,
                antenna_serial: b,
                receiver: c,
                firmware: d,
                receiver_serial: e,
            },
            None => MessageView::Other,
        }
    } else if n == 1230 {
        match fields_1230(frame) {
            Some(station) => MessageView::Station { station },
            None => MessageView::Other,
        }
    } else {
        MessageView::Other
    }
}

/// The message of a frame. An MSM7 with more than 64 places in its cell mask, which
/// the format does not allow, is not used.
pub open spec fn message_in(frame: Seq<u8>) -> MessageView<u64> {
    let n = msg_type(frame);
    if n == 1077 {
        msm_of(Gnss::Gps, frame)
    } else if n == 1087 {
        glonass_msm(frame)
    } else if n == 1097 {
        msm_of(Gnss::Galileo, frame)
    } else if n == 1107 {
        msm_of(Gnss::Sbas, frame)
    } else if n == 1117 {
        msm_of(Gnss::Qzss, frame)
    } else if n == 1127 {
        msm_of(Gnss::Beidou, frame)
    } else if n == 1137 {
        msm_of(Gnss::Irnss, frame)
    } else {
        station_message(frame)
    }
}

fn mask_fits(frame: &[u8]) -> (r: bool)
    requires
        frame@.len() >= 3,
    ensures
        r == cells_fit(frame@),
{
    let rest = slice_subrange(frame, 3, frame.len());
    assert(rest@ =~= frame@.skip(3));
    let mut b = BitReader::new(rest);
    let _ = b.u(64);
    let _ = b.u(9);
    let sats: u64 = b.u(64);
    let sigs: u64 = b.u(32);
    let m: usize = mask_bits_64(sats, 64).len();
    let n: usize = mask_bits_64(sigs, 32).len();
    assert(m * n <= 64 * 32) by (nonlinear_arith)
        requires
            0 <= m <= 64,
            0 <= n <= 32,
    ;
    m * n <= 64
}

fn convert_sats(v: &Vec<SatFields>) -> (r: Vec<SatData<u64>>)
    ensures
        r@ == sats_of(v@),
{
    let mut out: Vec<SatData<u64>> = Vec::new();
    let mut i: usize = 0;
    while i < v.len()
        invariant
            i <= v@.len(),
            out@ == sats_of(v@.take(i as int)),
        decreases v@.len() - i,
    {
        let (satellite_id, range_int, range_mod, phase_rate) = v[i];
        out.push(SatData { satellite_id, range_int, range_mod, phase_rate, glo_channel: None });
        assert(out@ =~= sats_of(v@.take(i + 1)));
        i += 1;
    }
    assert(v@.take(i as int) =~= v@);
    out
}

fn convert_glo_sats(v: &Vec<GloSatFields>) -> (r: Vec<SatData<u64>>)
    ensures
        r@ == glo_sats_of(v@),
{
    let mut out: Vec<SatData<u64>> = Vec::new();
    let mut i: usize = 0;
    while i < v.len()
        invariant
            i <= v@.len(),
            out@ == glo_sats_of(v@.take(i as int)),
        decreases v@.len() - i,
    {
        let (satellite_id, range_int, glo_channel, range_mod, phase_rate) = v[i];
        out.push(SatData { satellite_id, range_int, range_mod, phase_rate, glo_channel });
        assert(out@ =~= glo_sats_of(v@.take(i + 1)));
        i += 1;
    }
    assert(v@.take(i as int) =~= v@);
    out
}

fn convert_sigs(v: &Vec<SigFields>) -> (r: Vec<SigData<u64>>)
    ensures
        r@ == sigs_of(v@),
{
    let mut out: Vec<SigData<u64>> = Vec::new();
    let mut i: usize = 0;
    while i < v.len()
        invariant
            i <= v@.len(),
            out@ == sigs_of(v@.take(i as int)),
        decreases v@.len() - i,
    {
        let s = v[i];
        out.push(
            SigData {
                satellite_id: s.0,
                band: s.1,
                attribute: s.2 as u8,
                pseudorange: s.3[0],
                phase_range: s.3[1],
                phase_rate: s.3[2],
                lock: s.4,
                half_cycle: s.5 != 0,
                cnr: s.3[3],
            },
        );
        assert(out@ =~= sigs_of(v@.take(i + 1)));
        i += 1;
    }
    assert(v@.take(i as int) =~= v@);
    out
}

fn msm_message(gnss: Gnss, cells: Option<Cells>) -> (r: Message<u64>)
    ensures
        r@ == (match cells_view(cells) {
            Some((epoch, sats, sigs)) => MessageView::Msm {
                gnss,
                epoch,
                sats: sats_of(sats),
                sigs: sigs_of(sigs),
            },
            None => MessageView::Other,
        }),
{
    match cells {
        Some((epoch, sats, sigs)) => Message::Msm {
            gnss,
            epoch,
            sats: convert_sats(&sats),
            sigs: convert_sigs(&sigs),
        },
        None => Message::Other,
    }
}

fn glonass_message(frame: &[u8]) -> (r: Message<u64>)
    requires
        msg_type(frame@) == 1087,
        cells_fit(frame@),
    ensures
        r@ == glonass_msm(frame@),
{
    match decode_1087(frame) {
        Some((day, tod, sats, sigs)) => Message::Msm {
            gnss: Gnss::Glonass,
            epoch: glonass_epoch(day, tod),
            sats: convert_glo_sats(&sats),
            sigs: convert_sigs(&sigs),
        },
        None => Message::Other,
    }
}

fn decode_station(frame: &[u8]) -> (r: Message<u64>)
    ensures
        r@ == station_message(frame@),
{
    match extract_msg_type(frame) {
        1005 => match decode_1005(frame) {
            Some((station, position)) => Message::Position { station, position },
            None => Message::Other,
        },
        1006 => match decode_1006(frame) {
            Some((station, position, height)) => Message::PositionHeight {
                station,
                position,
                delta: [height, 0, 0],
            },
            None => Message::Other,
        },
        1007 => match decode_1007(frame) {
            Some((station, descriptor)) => {
                let serial = String::new();
                assert(serial@ =~= Seq::empty());
                Message::Antenna { station, descriptor, serial }
            },
            None => Message::Other,
        },
        1008 => match decode_1008(frame) {
            Some((station, descriptor, serial)) => Message::Antenna {
                station,
                descriptor,
                serial,
            },
            None => Message::Other,
        },
        1013 => match decode_1013(frame) {
            Some((station, leap)) => Message::SystemParameters { station, leap },
            None => Message::Other,
        },
        1033 => match decode_1033(frame) {
            Some((station, antenna, antenna_serial, receiver, firmware, receiver_serial)) => {
                Message::Equipment {
                    station,
                    antenna,
                    antenna_serial,
                    receiver,
                    firmware,
                    receiver_serial,
                }
            },
            None => Message::Other,
        },
        1230 => match decode_1230(frame) {
            Some(station) => Message::Station { station },
            None => Message::Other,
        },
        _ => Message::Other,
    }
}

/// Decodes the message of a frame.
pub fn decode_message(frame: &[u8]) -> (r: Message<u64>)
    ensures
        r@ == message_in(frame@),
{
    let n: u16 = extract_msg_type(frame);
    if !(n == 1077 || n == 1087 || n == 1097 || n == 1107 || n == 1117 || n == 1127 || n == 1137) {
        return decode_station(frame);
    }
    if !mask_fits(frame) {
        return Message::Other;
    }
    match n {
        1077 => msm_message(Gnss::Gps, decode_1077(frame)),
        1087 => glonass_message(frame),
        1097 => msm_message(Gnss::Galileo, decode_1097(frame)),
        1107 => msm_message(Gnss::Sbas, decode_1107(frame)),
        1117 => msm_message(Gnss::Qzss, decode_1117(frame)),
        1127 => msm_message(Gnss::Beidou, decode_1127(frame)),
        _ => msm_message(Gnss::Irnss, decode_1137(frame)),
    }
}

} // verus!
