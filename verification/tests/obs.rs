use obsj::obs::{
    parse_time, Civil, GpsTime, Instant, ObsCode, SatId, SigId, SignalKey, SignalObservation,
    SignalValues, LLI_BOC, LLI_HALF_CYCLE, LLI_LOST_LOCK,
};

#[test]
fn time_roundtrip_label() {
    // 2026-05-28T05:21:37.0969400 must round-trip through rendering and parsing.
    let s = "2026-05-28T05:21:37.0969400";
    let t = parse_time(s).unwrap();
    assert_eq!(t.to_string(), s);
}

#[test]
fn week_millis() {
    let t = GpsTime::from_gps_week_millis(2316, 19437000);
    let (w, tow) = t.gps_week_millis();
    assert_eq!((w, tow), (2316, 19437000));
}

#[test]
fn sat_format() {
    assert_eq!(SatId::format(b'G', 3).as_str(), "G03");
    assert_eq!(SatId::format(b'C', 14).as_str(), "C14");
    assert!("G03".parse::<SatId>().is_ok());
    assert!("X03".parse::<SatId>().is_err());
    assert!("G00".parse::<SatId>().is_err());
}

#[test]
fn time_errors() {
    assert!(parse_time("2026-13-28T05:21:37").is_err());
    assert!(parse_time("2026-02-30T05:21:37").is_err());
    assert!(parse_time("2026-05-28 05:21:37").is_err());
    assert!(parse_time("").is_err());
    assert!(parse_time("2026-05-28T05:21:37.09694001").is_err());
}

#[test]
fn gps_epoch_is_tick_zero() {
    let c = GpsTime(0).civil();
    assert_eq!((c.year, c.month, c.day), (1980, 1, 6));
    assert_eq!(GpsTime::from_civil(c), GpsTime(0));
    assert_eq!(GpsTime(0).to_string(), "1980-01-06T00:00:00.0000000");
}

#[test]
fn civil_time_round_trips() {
    for n in [-86_400_000_001i64, -1, 0, 1, 14_000_000_000_000_017] {
        let t = GpsTime(n);
        assert_eq!(GpsTime::from_civil(t.civil()), t);
    }
}

#[test]
fn civil_validity() {
    let c = Civil { year: 2024, month: 2, day: 29, hour: 23, minute: 59, second: 59, nanos: 0 };
    assert!(c.is_valid());
    assert!(!Civil { year: 2023, ..c }.is_valid());
    assert!(!Civil { hour: 24, ..c }.is_valid());
    assert!(c.fits_gps());
    assert!(!Civil { year: 40_000_000, ..c }.fits_gps());
}

#[test]
fn week_ticks() {
    let t = GpsTime::from_gps_week_ticks(1, 5);
    assert_eq!(t.0, 604_800 * 10_000_000 + 5);
    assert_eq!(GpsTime(10).epoch_nanos(), 1000);
}

#[test]
fn instants_round_trip() {
    let d = Instant { secs: 1_700_000_000, nanos: 250 };
    let back = Instant::from_civil(d.civil());
    assert_eq!((back.secs, back.nanos), (d.secs, d.nanos));
    // The GPS epoch, as a Unix time.
    assert_eq!(Instant { secs: 315_964_800, nanos: 7 }.gps_nanos(), 7);
}

#[test]
fn identifiers() {
    assert!(SatId(*b"R24").is_valid());
    assert!(!SatId(*b"R0a").is_valid());
    assert_eq!(SatId(*b"R24").system(), b'R');
    assert!(SatId::from_bytes(b"E1").is_none());
    assert_eq!(SatId::from_bytes(b"E11").unwrap().as_str(), "E11");
    let sig = "1C".parse::<SigId>().unwrap();
    assert_eq!(sig.band(), b'1');
    assert!("C1".parse::<SigId>().is_err());
    let code: ObsCode = sig.code(b'L');
    assert_eq!(code.as_str(), "L1C");
    assert_eq!(code.obs_type(), b'L');
    assert_eq!(code.signal().as_str(), "1C");
}

#[test]
fn signal_keys_are_numbered_apart() {
    let a = SignalKey { sat: SatId(*b"G01"), sig: SigId(*b"1C") };
    let b = SignalKey { sat: SatId(*b"G01"), sig: SigId(*b"2C") };
    assert!(a.number() < b.number());
    assert_eq!(a.number(), a.number());
}

#[test]
fn loss_of_lock_bits() {
    let mut v: SignalValues<f64, f32> = SignalValues::default();
    assert!(v.is_zero());
    v.set_lli(LLI_LOST_LOCK | LLI_BOC);
    assert!(v.ll && !v.hc && v.bt);
    assert_eq!(v.rinex_lli(true), LLI_LOST_LOCK | LLI_BOC);
    assert_eq!(v.rinex_lli(false), LLI_BOC);
    v.set_lli(LLI_HALF_CYCLE);
    assert!(!v.ll && v.hc && !v.bt);
    assert_eq!(v.rinex_lli(false), 2);
}

#[test]
fn observations_with_code() {
    let mut o: SignalObservation<f64, f32> = SignalObservation {
        t: GpsTime(1),
        sat: SatId::format(b'E', 5),
        sig: SigId(*b"5Q"),
        v: SignalValues::default(),
    };
    assert_eq!(o.system(), b'E');
    assert!(!o.has_any_code());
    o.v.cn0 = Some(1.5);
    assert!(o.has_any_code());
}

#[test]
fn fractions_are_seven_digits() {
    assert!(parse_time("2026-05-28T05:21:37.0969400").is_ok());
    for s in ["2026-05-28T05:21:37.+969400", "2026-05-28T05:21:37.969400", "2026-05-28T05:21:37"] {
        assert!(parse_time(s).is_err(), "{}", s);
    }
}
