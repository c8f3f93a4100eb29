use obsj::crc24q;
use obsj::msm::{parse_msg, parse_msm7, payload_of};
use obsj::obs::{GpsTime, SatId, SigId};
use obsj::rtcm::{
    extract_msg_type, first_frame_pos, first_msm7_pos, frames, is_msm7_frame, rinex_sat_num,
    station_marker, CellValues, Converter, Message, Numbers, Options, SatData, SigData,
};
use obsj::rtcm_decode::decode_message;
use obsj::rtcm_time::{
    continuity_candidate, epoch_week_offsets, glonass_epoch_week_offsets, resolve_continuity,
    resolve_week, Gnss, TimeInterval, BDT_OFFSET_MS, DAY_MS, DEFAULT_GPS_UTC_MS,
    GLONASS_UTC_OFFSET_MS, HOUR_MS, RINEX_TICKS_PER_MS, WEEK_MS,
};
use obsj::sink::Collector;

fn converter() -> Converter<Collector<f64, f32>> {
    Converter::new(
        Collector::new(),
        Options { use_spec_phase_range_rate_sign: false, omit_zero_do: false },
    )
}

fn week_window(t: GpsTime, before_s: i64, dur_s: i64) -> TimeInterval {
    TimeInterval {
        start_ns: t.epoch_nanos() - before_s * 1_000_000_000,
        dur_ns: dur_s * 1_000_000_000,
    }
}

// ---- epoch -> week-offset candidates ----

#[test]
fn epoch_week_offsets_ranges_and_bds_offset() {
    let leap = DEFAULT_GPS_UTC_MS;
    // GPS: the epoch time is the offset, verbatim.
    assert_eq!(epoch_week_offsets(345_600_000, Gnss::Gps, leap).unwrap(), vec![345_600_000]);
    // BeiDou is +14 s from GPS time.
    assert_eq!(epoch_week_offsets(1000, Gnss::Beidou, leap).unwrap(), vec![1000 + BDT_OFFSET_MS]);
    // Epoch time at or beyond a week is invalid.
    assert!(epoch_week_offsets(WEEK_MS as u32, Gnss::Gps, leap).is_err());
    assert!(epoch_week_offsets(WEEK_MS as u32, Gnss::Beidou, leap).is_err());
}

#[test]
fn glonass_epoch_week_offsets_day_and_ambiguity() {
    let leap = DEFAULT_GPS_UTC_MS;
    let tod = 4 * HOUR_MS;
    // day != 7: a single candidate, UTC-shifted and leap-corrected.
    let epoch = (2u32 << 27) | tod as u32;
    assert_eq!(
        glonass_epoch_week_offsets(epoch, leap).unwrap(),
        vec![2 * DAY_MS + tod - GLONASS_UTC_OFFSET_MS + leap]
    );
    // day == 7 (unknown): one candidate per day of the week.
    let epoch7 = (7u32 << 27) | tod as u32;
    let got = glonass_epoch_week_offsets(epoch7, leap).unwrap();
    let want: Vec<i64> =
        (0..7).map(|d| d * DAY_MS + tod - GLONASS_UTC_OFFSET_MS + leap).collect();
    assert_eq!(got, want);
    // time-of-day beyond a day is invalid.
    assert!(glonass_epoch_week_offsets(DAY_MS as u32, leap).is_err());
}

// ---- week resolution against a constraint ----

#[test]
fn resolve_week_single_match() {
    let t = GpsTime::from_gps_week_millis(2397, 345_600_000);
    let offsets = vec![345_600_000i64];
    let got = resolve_week(&offsets, week_window(t, 60, 120)).unwrap();
    assert_eq!(got.0, t.0);
}

#[test]
fn resolve_week_no_match() {
    // The single candidate (~4 days into the week) lies outside a one-hour
    // window at the week start.
    let start = GpsTime::from_gps_week_millis(2397, 0);
    let offsets = vec![345_600_000i64];
    assert!(resolve_week(&offsets, week_window(start, 0, 3600)).is_err());
}

#[test]
fn resolve_week_ambiguous() {
    // GLONASS day-7 spreads a candidate across every day; a 48-hour window
    // catches two of them.
    let epoch7 = (7u32 << 27) | (4 * HOUR_MS) as u32;
    let offsets = glonass_epoch_week_offsets(epoch7, DEFAULT_GPS_UTC_MS).unwrap();
    let start = GpsTime::from_gps_week_millis(2397, 0);
    assert!(resolve_week(&offsets, week_window(start, 0, 48 * 3600)).is_err());
}

// ---- continuity (no constraint) ----

#[test]
fn continuity_candidate_half_week_wrap() {
    let prev_week = 2397i64;
    // No wrap when the offset is near the previous epoch.
    let prev_ms = prev_week * WEEK_MS + 345_600_000;
    assert_eq!(
        continuity_candidate(prev_week, 345_600_000, prev_ms).0,
        prev_ms * RINEX_TICKS_PER_MS
    );
    // Previous near week start, offset near week end -> wrap back a week.
    let prev_ms = prev_week * WEEK_MS + 1000;
    let got = continuity_candidate(prev_week, WEEK_MS - 1000, prev_ms);
    assert_eq!(got.0, (prev_week * WEEK_MS - 1000) * RINEX_TICKS_PER_MS);
    // Previous near week end, offset near week start -> wrap forward a week.
    let prev_ms = prev_week * WEEK_MS + (WEEK_MS - 1000);
    let got = continuity_candidate(prev_week, 1000, prev_ms);
    assert_eq!(got.0, ((prev_week + 1) * WEEK_MS + 1000) * RINEX_TICKS_PER_MS);
}

#[test]
fn resolve_continuity_picks_nearest_candidate() {
    let prev = GpsTime::from_gps_week_millis(2397, 345_600_000);
    let prev_ms = prev.0 / RINEX_TICKS_PER_MS;
    // Two candidates: the matching one and one a day off; the nearest wins.
    let offsets = vec![345_600_000i64, 345_600_000 + DAY_MS];
    let got = resolve_continuity(&offsets, prev);
    assert_eq!(got.0, prev_ms * RINEX_TICKS_PER_MS);
}

// ---- satellite numbering ----

#[test]
fn rinex_sat_num_ranges() {
    assert_eq!(rinex_sat_num(Gnss::Gps, 3), 3);
    assert_eq!(rinex_sat_num(Gnss::Gps, 64), 0);
    assert_eq!(rinex_sat_num(Gnss::Gps, 0), 0);
    // SBAS is offset by +19.
    assert_eq!(rinex_sat_num(Gnss::Sbas, 20), 39);
    assert_eq!(rinex_sat_num(Gnss::Sbas, 40), 0);
    assert_eq!(rinex_sat_num(Gnss::Glonass, 24), 24);
    assert_eq!(rinex_sat_num(Gnss::Glonass, 25), 0);
    assert_eq!(rinex_sat_num(Gnss::Galileo, 50), 50);
    assert_eq!(rinex_sat_num(Gnss::Galileo, 51), 0);
    assert_eq!(rinex_sat_num(Gnss::Beidou, 63), 63);
    assert_eq!(rinex_sat_num(Gnss::Qzss, 11), 0);
    assert_eq!(rinex_sat_num(Gnss::Irnss, 14), 14);
    assert_eq!(rinex_sat_num(Gnss::Irnss, 15), 0);
}

// ---- frame scanning helpers ----

fn frame(mt: u16) -> Vec<u8> {
    vec![0xD3, 0, 0, (mt >> 4) as u8, ((mt & 0xF) << 4) as u8, 0, 0]
}

#[test]
fn msg_type_and_msm7_classification() {
    assert_eq!(extract_msg_type(&frame(1077)), 1077);
    assert_eq!(extract_msg_type(&frame(1005)), 1005);
    assert_eq!(extract_msg_type(&[0xD3, 0, 0]), 0); // too short
    assert!(is_msm7_frame(&frame(1077)));
    assert!(is_msm7_frame(&frame(1127)));
    assert!(!is_msm7_frame(&frame(1076)));
    assert!(!is_msm7_frame(&frame(1005)));
}

/// A frame with a payload and its checksum.
fn framed(payload: &[u8]) -> Vec<u8> {
    let mut f = vec![0xD3, (payload.len() >> 8) as u8, payload.len() as u8];
    f.extend_from_slice(payload);
    let crc = crc24q::checksum(&f);
    f.extend_from_slice(&[(crc >> 16) as u8, (crc >> 8) as u8, crc as u8]);
    f
}

#[test]
fn crc24q_of_known_frame() {
    // A station message 1005 with its published checksum.
    let f: [u8; 25] = [
        0xD3, 0x00, 0x13, 0x3E, 0xD7, 0xD3, 0x02, 0x02, 0x98, 0x0E, 0xDE, 0xEF, 0x34, 0xB4, 0xBD,
        0x62, 0xAC, 0x09, 0x41, 0x98, 0x6F, 0x33, 0x36, 0x0B, 0x98,
    ];
    assert_eq!(crc24q::checksum(&f[..22]), 0x36_0B_98);
    // A checksum over the checksum is zero.
    assert_eq!(crc24q::checksum(&f), 0);
    match parse_msg(&f) {
        Message::Position { station, .. } => assert_eq!(station, 2003),
        _ => panic!("a station position"),
    }
}

#[test]
fn frames_are_found_past_noise() {
    let a = framed(&[0x3E, 0xD0, 0x00, 0x01]);
    let b = framed(&[0x43, 0x50, 0x00, 0x02]);
    let mut data = vec![0x00, 0xD3, 0x11];
    data.extend_from_slice(&a);
    data.push(0xFF);
    let second = data.len();
    data.extend_from_slice(&b);
    assert_eq!(first_frame_pos(&data), Some(3));
    let mut it = frames(&data);
    assert_eq!(it.next().unwrap(), a.as_slice());
    assert_eq!(it.next().unwrap(), b.as_slice());
    assert!(it.next().is_none());
    // 0x435 is 1077: the first observation frame is the second frame.
    assert_eq!(first_msm7_pos(&data), Some(second));
    assert_eq!(payload_of(&a), &[0x3E, 0xD0, 0x00, 0x01]);
}

#[test]
fn damaged_frames_are_skipped() {
    let mut a = framed(&[0x3E, 0xD0, 0x00, 0x01]);
    a[4] ^= 1;
    assert_eq!(first_frame_pos(&a), None);
    assert!(frames(&a).next().is_none());
}

#[test]
fn station_numbers_name_the_marker() {
    let m = station_marker(7);
    assert_eq!(m.number, "7");
    assert_eq!(m.name, "");
}

fn sat(id: u8) -> SatData<f64> {
    SatData {
        satellite_id: id,
        range_int: Some(70),
        range_mod: 0.5,
        phase_rate: Some(1),
        glo_channel: None,
    }
}

fn sig(id: u8, lock: u16) -> SigData<f64> {
    SigData {
        satellite_id: id,
        band: 1,
        attribute: b'C',
        pseudorange: Some(0.0),
        phase_range: Some(0.0),
        phase_rate: Some(0.0),
        lock,
        half_cycle: false,
        cnr: Some(45.0),
    }
}

fn cell(pr: f64) -> CellValues<f64, f32> {
    CellValues { pr: Some(pr), cp: Some(2.0), dop: Some(0.0), dop_is_zero: true, cn0: Some(45.0) }
}

fn numbers(c: CellValues<f64, f32>) -> Numbers<f64, f32> {
    Numbers { cells: vec![c], position: None, delta: None }
}

fn no_numbers() -> Numbers<f64, f32> {
    Numbers { cells: Vec::new(), position: None, delta: None }
}

#[test]
fn a_message_becomes_observations() {
    let mut c = converter();
    let t = GpsTime::from_gps_week_millis(2397, 345_600_000);
    let msg = Message::Msm {
        gnss: Gnss::Gps,
        epoch: 345_600_000,
        sats: vec![sat(3)],
        sigs: vec![sig(3, 100)],
    };
    assert!(c.is_ready());
    assert!(c.convert_message(&msg, &numbers(cell(21.5)), week_window(t, 60, 120)).unwrap());
    let o = c.sink().obs[0];
    assert_eq!(o.t, t);
    assert_eq!(o.sat.as_str(), "G03");
    assert_eq!(o.sig.as_str(), "1C");
    assert_eq!(o.v.pr, Some(21.5));
    assert_eq!(o.v.dop, Some(0.0));
    assert_eq!(o.v.cn0, Some(45.0));
}

#[test]
fn zero_doppler_is_left_out_on_request() {
    let mut c: Converter<Collector<f64, f32>> = Converter::new(
        Collector::new(),
        Options { use_spec_phase_range_rate_sign: false, omit_zero_do: true },
    );
    let t = GpsTime::from_gps_week_millis(2397, 0);
    let msg =
        Message::Msm { gnss: Gnss::Gps, epoch: 0, sats: vec![sat(3)], sigs: vec![sig(3, 100)] };
    c.convert_message(&msg, &numbers(cell(1.0)), week_window(t, 60, 120)).unwrap();
    assert_eq!(c.sink().obs[0].v.dop, None);
}

#[test]
fn the_first_epoch_needs_a_week() {
    let mut c = converter();
    let t = GpsTime::from_gps_week_millis(2397, 345_600_000);
    let msg =
        Message::Msm { gnss: Gnss::Gps, epoch: 0, sats: vec![sat(3)], sigs: vec![sig(3, 100)] };
    let r = c.convert_message(&msg, &numbers(cell(1.0)), week_window(t, 60, 120));
    assert!(r.is_err());
    assert!(c.sink().obs.is_empty());
}

#[test]
fn a_shorter_lock_is_a_slip() {
    let mut c = converter();
    let (g3, c1) = (SatId::format(b'G', 3), SigId(*b"1C"));
    assert!(!c.slip_hc(g3, c1, &sig(3, 100), true).0);
    assert!(c.slip_hc(g3, c1, &sig(3, 50), true).0);
    assert!(!c.slip_hc(g3, c1, &sig(3, 60), true).0);
}

#[test]
fn a_slip_waits_for_a_phase() {
    let mut c = converter();
    let (g3, c1) = (SatId::format(b'G', 3), SigId(*b"1C"));
    assert!(!c.slip_hc(g3, c1, &sig(3, 0), false).0);
    assert!(c.slip_hc(g3, c1, &sig(3, 5), true).0);
    assert!(!c.slip_hc(g3, c1, &sig(3, 6), true).0);
}

#[test]
fn an_interval_without_a_length_constrains_nothing() {
    assert!(TimeInterval { start_ns: 5, dur_ns: 0 }.is_zero());
    assert!(!TimeInterval { start_ns: 0, dur_ns: 5 }.is_zero());
    assert!(TimeInterval::default().is_zero());
}

// Values are left out where the fields of the message do not allow them.
#[test]
fn fields_decide_which_values_there_are() {
    let t = GpsTime::from_gps_week_millis(2397, 0);
    let observed = |a: SatData<f64>, b: SigData<f64>| {
        let mut c = converter();
        let msg = Message::Msm { gnss: Gnss::Gps, epoch: 0, sats: vec![a], sigs: vec![b] };
        c.convert_message(&msg, &numbers(cell(1.0)), week_window(t, 60, 120)).unwrap();
        let v = c.sink().obs[0].v;
        (v.pr.is_some(), v.cp.is_some(), v.dop.is_some(), v.cn0.is_some())
    };
    assert_eq!(observed(sat(3), sig(3, 1)), (true, true, true, true));
    let no_range = SatData { range_int: None, ..sat(3) };
    assert_eq!(observed(no_range, sig(3, 1)), (false, false, true, true));
    let no_rate = SatData { phase_rate: None, ..sat(3) };
    assert_eq!(observed(no_rate, sig(3, 1)), (true, true, false, true));
    let no_phase = SigData { phase_range: None, cnr: None, ..sig(3, 1) };
    assert_eq!(observed(sat(3), no_phase), (true, false, true, false));
    // Without values there is no observation.
    let mut c = converter();
    let msg =
        Message::Msm { gnss: Gnss::Gps, epoch: 0, sats: vec![sat(3)], sigs: vec![sig(3, 1)] };
    assert!(!c.convert_message(&msg, &no_numbers(), week_window(t, 60, 120)).unwrap());
}

// ---- decoding ----

// A message written bit by bit.
#[derive(Default)]
struct Bits(Vec<bool>);

impl Bits {
    fn put(mut self, value: u64, width: u32) -> Bits {
        self.0.extend((0..width).rev().map(|i| value >> i & 1 == 1));
        self
    }

    fn text(self, s: &str) -> Bits {
        let start = self.put(s.len() as u64, 8);
        s.bytes().fold(start, |b, c| b.put(c as u64, 8))
    }

    fn frame(self) -> Vec<u8> {
        let bytes: Vec<u8> = self
            .0
            .chunks(8)
            .map(|c| c.iter().enumerate().fold(0, |b, (i, &x)| b | (x as u8) << (7 - i)))
            .collect();
        framed(&bytes)
    }
}

// The header of an MSM7 of station 0, up to its masks.
fn msm7_header(number: u64, epoch: u64) -> Bits {
    Bits::default().put(number, 12).put(0, 12).put(epoch, 30).put(0, 19)
}

// An MSM7 of one satellite and one signal.
fn msm7(number: u64, epoch: u64, satellite: u32, signal: u32, lock: u64) -> Vec<u8> {
    msm7_header(number, epoch)
        .put(1 << (64 - satellite), 64)
        .put(1 << (32 - signal), 32)
        .put(1, 1)
        // 70 ms and a half, extended information 8, 3 m/s.
        .put(70, 8)
        .put(8, 4)
        .put(512, 10)
        .put(3, 14)
        // The fine parts, the lock time, the half-cycle ambiguity, 45 dB-Hz.
        .put(1024, 20)
        .put(2048, 24)
        .put(lock, 10)
        .put(1, 1)
        .put(720, 10)
        .put(5, 15)
        .frame()
}

#[test]
fn msm7_frames_are_decoded() {
    for (number, system, satellite, signal, code) in [
        (1077, Gnss::Gps, 3, 2, (1, b'C')),
        (1097, Gnss::Galileo, 12, 2, (1, b'C')),
        (1107, Gnss::Sbas, 4, 2, (1, b'C')),
        (1117, Gnss::Qzss, 2, 2, (1, b'C')),
        (1127, Gnss::Beidou, 21, 2, (2, b'I')),
        (1137, Gnss::Irnss, 5, 22, (5, b'A')),
    ] {
        match decode_message(&msm7(number, 345_600_000, satellite, signal, 99)) {
            Message::Msm { gnss, epoch, sats, sigs } => {
                assert_eq!((gnss, epoch), (system, 345_600_000));
                assert_eq!((sats.len(), sigs.len()), (1, 1));
                let (a, b) = (&sats[0], &sigs[0]);
                assert_eq!((a.satellite_id, b.satellite_id), (satellite as u8, satellite as u8));
                assert_eq!((a.range_int, a.phase_rate, a.glo_channel), (Some(70), Some(3), None));
                assert_eq!(f64::from_bits(a.range_mod), 0.5);
                assert_eq!((b.band, b.attribute), code);
                let real = |x: Option<u64>| x.map(f64::from_bits);
                assert_eq!(real(b.pseudorange), Some(1024.0 / 536_870_912.0));
                assert_eq!(real(b.phase_range), Some(2048.0 / 2_147_483_648.0));
                assert_eq!(real(b.phase_rate), Some(5.0 * 0.0001));
                assert_eq!(real(b.cnr), Some(45.0));
                assert_eq!((b.lock, b.half_cycle), (99, true));
            }
            m => panic!("{:?}", m),
        }
    }
}

#[test]
fn glonass_frames_are_decoded() {
    // The third day, one second past midnight.
    let day = 3u64 << 27 | 1000;
    match decode_message(&msm7(1087, day, 7, 2, 99)) {
        Message::Msm { gnss, epoch, sats, sigs } => {
            assert_eq!((gnss, epoch as u64), (Gnss::Glonass, day));
            assert_eq!((sats[0].satellite_id, sats[0].glo_channel), (7, Some(1)));
            assert_eq!((sigs[0].band, sigs[0].attribute, sigs[0].lock), (1, b'C', 99));
        }
        m => panic!("{:?}", m),
    }
    let unknown_day = 7u64 << 27 | 5;
    match decode_message(&msm7(1087, unknown_day, 7, 2, 99)) {
        Message::Msm { epoch, .. } => assert_eq!(epoch as u64, unknown_day),
        m => panic!("{:?}", m),
    }
}

#[test]
fn what_cannot_be_decoded_is_not_used() {
    let good = msm7(1077, 0, 3, 2, 99);
    let mut damaged = good.clone();
    damaged[10] ^= 1;
    assert!(matches!(decode_message(&damaged), Message::Other));
    assert!(matches!(decode_message(&good[..20]), Message::Other));
    assert!(matches!(decode_message(&[]), Message::Other));
    // Nine satellites with eight signals have more than 64 places.
    let crowded = msm7_header(1077, 0).put(0x1ff, 64).put(0xff, 32);
    let crowded = (0..40).fold(crowded, |b, _| b.put(0, 64)).frame();
    assert!(matches!(decode_message(&crowded), Message::Other));
    // A message that ends in its header, and one of another kind.
    assert!(matches!(decode_message(&framed(&[0x43, 0x50, 0x00, 0x00])), Message::Other));
    assert!(matches!(decode_message(&framed(&[0x3f, 0xb0, 0x00, 0x00])), Message::Other));
}

// The start of a message of station 9.
fn station(number: u64) -> Bits {
    Bits::default().put(number, 12).put(9, 12)
}

// The position 1 m, 2 m, -3 m.
fn position(b: Bits) -> Bits {
    b.put(0, 10).put(10_000, 38).put(0, 2).put(20_000, 38).put(0, 2).put(
        (1u64 << 38) - 30_000,
        38,
    )
}

#[test]
fn station_frames_are_decoded() {
    let metres = |p: [u64; 3]| p.map(|x| (f64::from_bits(x) * 10_000.0).round() as i64);
    match decode_message(&position(station(1005)).frame()) {
        Message::Position { station, position } => {
            assert_eq!((station, metres(position)), (9, [10_000, 20_000, -30_000]));
        }
        m => panic!("{:?}", m),
    }
    match decode_message(&position(station(1006)).put(15_000, 16).frame()) {
        Message::PositionHeight { station, position, delta } => {
            assert_eq!((station, metres(position)), (9, [10_000, 20_000, -30_000]));
            assert_eq!(metres(delta), [15_000, 0, 0]);
        }
        m => panic!("{:?}", m),
    }
    match decode_message(&station(1007).text("ANT").put(0, 8).frame()) {
        Message::Antenna { station, descriptor, serial } => {
            assert_eq!((station, descriptor.as_str(), serial.as_str()), (9, "ANT", ""));
        }
        m => panic!("{:?}", m),
    }
    match decode_message(&station(1008).text("ANT").put(0, 8).text("123").frame()) {
        Message::Antenna { station, descriptor, serial } => {
            assert_eq!((station, descriptor.as_str(), serial.as_str()), (9, "ANT", "123"));
        }
        m => panic!("{:?}", m),
    }
    match decode_message(&station(1013).put(0, 16).put(0, 17).put(0, 5).put(18, 8).frame()) {
        Message::SystemParameters { station, leap } => assert_eq!((station, leap), (9, Some(18))),
        m => panic!("{:?}", m),
    }
    let equipment = station(1033).text("ANT").put(0, 8).text("1").text("RCV").text("F2").text("3");
    match decode_message(&equipment.frame()) {
        Message::Equipment { station, antenna, antenna_serial, receiver, firmware, receiver_serial } => {
            assert_eq!((station, antenna.as_str(), antenna_serial.as_str()), (9, "ANT", "1"));
            assert_eq!(
                (receiver.as_str(), firmware.as_str(), receiver_serial.as_str()),
                ("RCV", "F2", "3"),
            );
        }
        m => panic!("{:?}", m),
    }
    match decode_message(&station(1230).put(0, 1).put(0, 3).put(0, 4).frame()) {
        Message::Station { station } => assert_eq!(station, 9),
        m => panic!("{:?}", m),
    }
}

#[test]
fn a_frame_is_decoded_and_converted() {
    let mut c = converter();
    let t = GpsTime::from_gps_week_millis(2397, 345_600_000);
    let week = week_window(t, 60, 120);
    let frame = msm7(1077, 345_600_000, 3, 2, 99);
    assert!(c.convert_frame(&frame, &numbers(cell(21.5)), week).unwrap());
    let o = c.sink().obs[0];
    assert_eq!((o.t, o.sat.as_str(), o.sig.as_str()), (t, "G03", "1C"));
    assert_eq!((o.v.pr, o.v.cp, o.v.hc), (Some(21.5), Some(2.0), true));

    let mut damaged = frame.clone();
    damaged[10] ^= 1;
    assert!(!c.convert_frame(&damaged, &numbers(cell(21.5)), week).unwrap());
    assert_eq!(c.sink().obs.len(), 1);

    let at = Numbers { cells: Vec::new(), position: Some([1.0, 2.0, -3.0]), delta: None };
    assert!(c.convert_frame(&position(station(1005)).frame(), &at, week).unwrap());
    assert_eq!(c.sink().meta.approx_position, Some([1.0, 2.0, -3.0]));
    assert_eq!(c.sink().meta.marker.number, "9");
    let antenna = station(1008).text("ANT  ").put(0, 8).text("123").frame();
    assert!(c.convert_frame(&antenna, &no_numbers(), week).unwrap());
    assert_eq!(c.sink().meta.antenna.type_, "ANT");
    assert_eq!(c.sink().meta.antenna.number, "123");
}

// A payload may be as long as memory allows.
#[test]
fn long_payloads_are_parsed() {
    let mut payload = payload_of(&msm7(1077, 345_600_000, 3, 2, 99)).to_vec();
    payload.resize(0x20000, 0);
    let m = parse_msm7(1077, &payload).unwrap();
    assert_eq!((m.epoch_time, m.sats, m.sigs), (345_600_000, vec![3], vec![2]));
    assert_eq!((m.range_int, m.lock_time), (vec![70], vec![99]));
    assert!(parse_msm7(1077, &payload[..30]).is_none());
}
