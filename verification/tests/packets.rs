use obsj::crc24q;
use obsj::obs::{GpsTime, Instant};
use obsj::packet::{
    detect_raw_family, log_error, no_observation_msg, packet_log_entry, stream_kind, tag_matches,
    FamilyKind, InputFormat, Packet, PacketDriver, PacketNumbers,
};
use obsj::packetlog::Entry;
use obsj::rtcm::{self, CellValues, Numbers};
use obsj::rtcm_time::TimeInterval;
use obsj::sink::Collector;
use obsj::ubx;
use obsj::week::{
    automatic_week_constraint, date_from_filename, date_week_constraint, file_week_constraint,
    is_constrainable, packet_log_week_constraint, parse_yyyymmdd, recent_week_constraint,
    valid_date, WeekConstraint, WeekMode, WeekSource,
};

fn rtcm_frame(payload: &[u8]) -> Vec<u8> {
    let mut f = vec![0xD3, (payload.len() >> 8) as u8, payload.len() as u8];
    f.extend_from_slice(payload);
    let crc = crc24q::checksum(&f);
    f.extend_from_slice(&[(crc >> 16) as u8, (crc >> 8) as u8, crc as u8]);
    f
}

// A complete, checksum-valid UBX NAV-PVT frame (class 0x01, id 0x07), empty
// payload: a valid UBX frame, but not an observation.
const UBX_NAV_PVT: &[u8] = &[0xB5, 0x62, 0x01, 0x07, 0x00, 0x00, 0x08, 0x19];

#[test]
fn raw_skips_non_observation_ubx_before_rtcm() {
    // 0x435 is message 1077, an observation message.
    let mut mixed = UBX_NAV_PVT.to_vec();
    mixed.extend_from_slice(&rtcm_frame(&[0x43, 0x50, 0x00, 0x00]));
    assert_eq!(detect_raw_family(&mixed), Some(FamilyKind::Rtcm));
    assert_eq!(stream_kind(InputFormat::Raw, &mixed), Some(FamilyKind::Rtcm));
    assert_eq!(detect_raw_family(UBX_NAV_PVT), None);
}

#[test]
fn named_formats_are_not_detected() {
    assert_eq!(stream_kind(InputFormat::Ubx, &[]), Some(FamilyKind::Ubx));
    assert_eq!(stream_kind(InputFormat::Rtcm, &[]), Some(FamilyKind::Rtcm));
    assert!(InputFormat::Raw.may_use_rtcm() && InputFormat::Raw.may_use_ubx());
    assert!(!InputFormat::Rinex.packet_input());
    assert!(!no_observation_msg(InputFormat::Raw).is_empty());
}

#[test]
fn log_tags() {
    assert_eq!(tag_matches(InputFormat::Rtcm, "RTCM"), Some(FamilyKind::Rtcm));
    assert_eq!(tag_matches(InputFormat::Raw, "UBX"), Some(FamilyKind::Ubx));
    assert_eq!(tag_matches(InputFormat::Ubx, "RTCM"), None);
    assert!(tag_matches(InputFormat::Ubx, "nothing").is_none());
    assert!(log_error(3, "bad").contains('3'));
}

fn entry(tag: &str, bin: &str) -> Entry {
    Entry {
        t: Some("2023-11-14T22:13:20Z".to_string()),
        tag: Some(tag.to_string()),
        bin: Some(bin.to_string()),
        ascii: None,
        out: false,
    }
}

#[test]
fn log_entries() {
    let tag = "RTCM";
    match packet_log_entry(InputFormat::Rtcm, &entry(tag, "d300"), 1) {
        Ok(Some(p)) => {
            assert_eq!(p.kind, FamilyKind::Rtcm);
            assert_eq!(p.payload, vec![0xd3, 0x00]);
            assert!(!p.week.is_zero());
        }
        _ => panic!("a packet"),
    }
    assert!(packet_log_entry(InputFormat::Rtcm, &entry(tag, "zz"), 1).is_err());
    let mut sent = entry(tag, "d300");
    sent.out = true;
    assert!(matches!(packet_log_entry(InputFormat::Rtcm, &sent, 1), Ok(None)));
}

fn driver(from: InputFormat) -> PacketDriver<Collector<f64, f32>> {
    PacketDriver::new(
        from,
        rtcm::Options { use_spec_phase_range_rate_sign: false, omit_zero_do: false },
        ubx::Options { slip_threshold: 15, bds_geo_half_cycle: false },
        Collector::new(),
    )
}

#[test]
fn a_family_once_chosen_stays() {
    let mut d = driver(InputFormat::Raw);
    assert!(d.use_rtcm());
    assert!(!d.use_ubx());
    assert!(d.use_rtcm());
    let mut e = driver(InputFormat::Ubx);
    assert!(!e.use_rtcm());
    assert!(e.use_ubx());
}

#[test]
fn a_stream_is_converted() {
    let mut d = driver(InputFormat::Rtcm);
    assert!(d.use_rtcm());
    let t = GpsTime::from_gps_week_millis(2397, 0);
    let wc = WeekConstraint {
        interval: TimeInterval {
            start_ns: t.epoch_nanos() - 60_000_000_000,
            dur_ns: 120_000_000_000,
        },
        errf: "",
        err: None,
    };
    let value = CellValues { pr: Some(9.0), cp: None, dop: None, dop_is_zero: false, cn0: None };
    let numbers = Numbers { cells: vec![value], position: None, delta: None };
    let frame = msm7(1097, 0, 2, 2, 1);
    assert!(d.is_ready());
    assert_eq!(d.convert_stream_frame(&frame, &numbers, &wc, true), Ok(1));
    d.flush::<f64, f32>().unwrap();
}

// A message written bit by bit.
#[derive(Default)]
struct Bits(Vec<bool>);

impl Bits {
    fn put(mut self, value: u64, width: u32) -> Bits {
        self.0.extend((0..width).rev().map(|i| value >> i & 1 == 1));
        self
    }

    fn frame(self) -> Vec<u8> {
        let bytes: Vec<u8> = self
            .0
            .chunks(8)
            .map(|c| c.iter().enumerate().fold(0, |b, (i, &x)| b | (x as u8) << (7 - i)))
            .collect();
        rtcm_frame(&bytes)
    }
}

// The header of an MSM7 of station 0, up to its masks.
fn msm7_header(number: u64, epoch: u64) -> Bits {
    Bits::default().put(number, 12).put(0, 12).put(epoch, 30).put(0, 19)
}

// An MSM7 of one satellite and one signal.
fn msm7(number: u64, epoch: u64, satellite: u32, signal: u32, lock: u64) -> Vec<u8> {
    msm7_header(number, epoch)
        .put(1 << (64 - satellite), 64)
        .put(1 << (32 - signal), 32)
        .put(1, 1)
        // 70 ms and a half, extended information 8, 3 m/s.
        .put(70, 8)
        .put(8, 4)
        .put(512, 10)
        .put(3, 14)
        // The fine parts, the lock time, the half-cycle ambiguity, 45 dB-Hz.
        .put(1024, 20)
        .put(2048, 24)
        .put(lock, 10)
        .put(1, 1)
        .put(720, 10)
        .put(5, 15)
        .frame()
}

fn none() -> Numbers<f64, f32> {
    Numbers { cells: Vec::new(), position: None, delta: None }
}

#[test]
fn the_first_frame_of_a_stream_fixes_the_week() {
    let t = GpsTime::from_gps_week_millis(2397, 5000);
    let wc = WeekConstraint {
        interval: TimeInterval {
            start_ns: t.epoch_nanos() - 60_000_000_000,
            dur_ns: 120_000_000_000,
        },
        errf: "no week: ",
        err: None,
    };
    let msm = |epoch| msm7(1077, epoch, 3, 2, 1);
    // 0x3fb is message 1019, which is not used.
    let other = rtcm_frame(&[0x3f, 0xb0, 0x00, 0x00]);
    let value = CellValues { pr: Some(9.0), cp: None, dop: None, dop_is_zero: false, cn0: None };
    let measured = || Numbers { cells: vec![value], position: None, delta: None };

    let mut d = driver(InputFormat::Rtcm);
    let data = [msm(5000), vec![0], other.clone(), msm(6000)].concat();
    assert_eq!(d.convert_rtcm_stream(&data, &[measured(), none(), measured()], &wc), Ok(2));

    // The constraint of the first frame stands for what follows it, but only an
    // error of the first frame itself is told with its reason.
    let mut d = driver(InputFormat::Rtcm);
    let e = d.convert_rtcm_stream(&msm(300_000_000), &[none()], &wc).unwrap_err();
    assert!(e.starts_with("no week: "), "{}", e);
    let mut d = driver(InputFormat::Rtcm);
    let data = [other, msm(300_000_000)].concat();
    let later = d.convert_rtcm_stream::<f64, f32>(&data, &[], &wc).unwrap_err();
    assert_eq!(e, format!("no week: {}", later));

    // A stream of the other family gives nothing.
    let mut d = driver(InputFormat::Ubx);
    assert_eq!(d.convert_rtcm_stream(&msm(5000), &[measured()], &wc), Ok(0));
    assert_eq!(d.convert_rtcm_stream::<f64, f32>(&[], &[], &wc), Ok(0));
}

#[test]
fn packets_of_a_log_are_converted() {
    let mut d = driver(InputFormat::Raw);
    let week = packet_log_week_constraint(Instant { secs: 1_700_000_000, nanos: 0 });
    // UBX that is not RXM-RAWX is passed over and chooses no family.
    let p = Packet { kind: FamilyKind::Ubx, payload: UBX_NAV_PVT.to_vec(), week };
    let nothing = PacketNumbers::<f64, f32>::Ubx(Vec::new());
    assert_eq!(d.convert_packet_log(&p, &nothing, 1), Ok(false));
    assert!(d.ubx_messages(&p.payload).is_empty());

    let at = |epoch| Packet { kind: FamilyKind::Rtcm, payload: msm7(1077, epoch, 3, 2, 1), week };
    let numbers = PacketNumbers::Rtcm(none());
    assert_eq!(d.convert_packet_log(&at(252_818_000), &numbers, 2), Ok(true));
    assert!(!d.use_ubx());

    let mut d = driver(InputFormat::Rtcm);
    let e = d.convert_payload(&at(1000), &numbers).unwrap_err();
    assert!(e.starts_with("RTCM epoch does not match packet-log timestamp: "), "{}", e);
    let mut d = driver(InputFormat::Rtcm);
    let told = d.convert_packet_log(&at(1000), &numbers, 4);
    assert_eq!(told, Err(format!("packet log line 4: {}", e)));
}

// ---- the week of a stream ----

const NOON: Instant = Instant { secs: 1_700_049_600, nanos: 0 };

#[test]
fn dates_are_read() {
    let d = parse_yyyymmdd("20231115").unwrap_or_else(|e| panic!("{}", e));
    assert_eq!(d, Instant { secs: 1_700_006_400, nanos: 0 });
    assert!(parse_yyyymmdd("2023111").is_err());
    assert!(parse_yyyymmdd("20231131").is_err());
    assert!(valid_date(2024, 2, 29) && !valid_date(2023, 2, 29));
}

#[test]
fn dates_in_file_names() {
    let d = date_from_filename("log-20231115.rtcm", "/x/log-20231115.rtcm");
    assert_eq!(d, parse_yyyymmdd("20231115"));
    assert!(date_from_filename("log.rtcm", "/x/log.rtcm").is_err());
    assert!(date_from_filename("20231115-20231116.rtcm", "p").is_err());
}

#[test]
fn week_constraints() {
    let recent = recent_week_constraint(NOON);
    assert!(recent.interval.is_usable());
    assert_eq!(
        recent.interval.start_ns + recent.interval.dur_ns,
        NOON.gps_nanos() + (recent.interval.dur_ns - (NOON.gps_nanos() - recent.interval.start_ns))
    );
    let date = date_week_constraint(Instant { secs: 1_700_006_400, nanos: 0 }, false);
    assert!(date.interval.is_usable());
    let auto = automatic_week_constraint(NOON, None);
    assert!(auto.interval.is_usable());
    assert!(!packet_log_week_constraint(NOON).is_zero());
}

#[test]
fn the_week_of_a_file() {
    let mut s = WeekSource {
        mode: WeekMode::Filename,
        date: NOON,
        base: "log-20231115.rtcm",
        path: "/x/log-20231115.rtcm",
        modtime: None,
        now: NOON,
    };
    assert!(is_constrainable(&s));
    assert!(file_week_constraint(&s, true).is_ok());
    s.base = "log.rtcm";
    assert!(file_week_constraint(&s, true).is_err());
    // The week of an old file is a guess: an error for an RTCM file, and for
    // another only where it turns out to hold RTCM.
    s.mode = WeekMode::Auto;
    s.modtime = Some(Instant { secs: NOON.secs - 86_400 * 60, nanos: 0 });
    assert!(file_week_constraint(&s, true).is_err());
    match file_week_constraint(&s, false) {
        Ok(w) => assert!(w.err.is_some()),
        Err(e) => panic!("{}", e),
    }
}
