use obsj::json::{
    parse_record, parse_rfc3339_public, read_obsj, stream_record, zoneless_date_time, RawRecord,
    Record,
};
use obsj::obs::{GpsTime, Instant, ObsCode, SatId, SigId, SignalObservation, SignalValues};
use obsj::packetlog::{hex_decode, Entry};
use obsj::rinex_backend::{is_crinex, parse_backend, parse_rinex_backend, resolve_input, RinexBackend};
use obsj::rinexio::{
    non_empty, observations_from_record, parse_version, plan_record, ObsKind, RecordEpoch,
    RecordSignal,
};
use obsj::sink::Collector;

fn blank() -> RawRecord<f64, f32> {
    RawRecord {
        t: None,
        sat: None,
        sig: None,
        frq: None,
        pr: None,
        cp: None,
        dop: None,
        cn0: None,
        arc: None,
        hc: None,
        bt: None,
        version: None,
        run: None,
        comment: None,
        marker: None,
        observer: None,
        agency: None,
        receiver: None,
        antenna: None,
        approx_position: None,
        antenna_delta: None,
        interval: None,
        leap_seconds: None,
        ssi: false,
        lli: false,
        ll: false,
    }
}

fn observed() -> RawRecord<f64, f32> {
    RawRecord {
        t: Some(GpsTime(10)),
        sat: Some(SatId(*b"G01")),
        sig: Some(SigId(*b"1C")),
        pr: Some(2.0),
        arc: Some(3),
        ..blank()
    }
}

#[test]
fn records_are_told_apart() {
    match parse_record(observed()) {
        Ok(Record::Observation(o)) => {
            assert_eq!((o.t.0, o.v.pr, o.v.arc), (10, Some(2.0), 3));
            assert!(!o.v.hc && !o.v.bt);
        }
        _ => panic!("an observation"),
    }
    match parse_record(RawRecord { observer: Some("me".to_string()), ..blank() }) {
        Ok(Record::Metadata(m)) => assert_eq!(m.observer, "me"),
        _ => panic!("metadata"),
    }
}

#[test]
fn record_errors() {
    let fail = |r: RawRecord<f64, f32>| match parse_record(r) {
        Ok(_) => panic!("accepted"),
        Err(e) => e,
    };
    let no_sat = fail(RawRecord { sat: None, ..observed() });
    let no_sig = fail(RawRecord { sig: None, ..observed() });
    assert_ne!(no_sat, no_sig);
    for r in [
        RawRecord { ssi: true, ..observed() },
        RawRecord { lli: true, ..observed() },
        RawRecord { ll: true, ..observed() },
    ] {
        assert!(!fail(r).is_empty());
    }
}

#[test]
fn records_stream_into_a_sink() {
    let mut c: Collector<f64, f32> = Collector::new();
    stream_record(observed(), 1, &mut c).unwrap();
    stream_record(RawRecord { agency: Some("a".to_string()), ..blank() }, 2, &mut c).unwrap();
    assert_eq!(c.obs.len(), 1);
    assert_eq!(c.meta.agency, "a");
    let e = stream_record(RawRecord { sat: None, ..observed() }, 7, &mut c).unwrap_err();
    assert!(e.contains('7'), "{}", e);
}

#[test]
fn records_are_collected() {
    let says = |agency: &str| RawRecord { agency: Some(agency.to_string()), ..blank() };
    let later = || RawRecord { t: Some(GpsTime(20)), ..observed() };
    let (m, obs) =
        read_obsj(vec![(1, says("a")), (2, observed()), (4, later()), (5, says("b"))]).unwrap();
    assert_eq!(m.agency, "b");
    assert_eq!(obs.iter().map(|o| o.t).collect::<Vec<_>>(), vec![GpsTime(10), GpsTime(20)]);

    // The first record that is refused is named by its line.
    let lost = || RawRecord { sat: None, ..observed() };
    let e = match read_obsj(vec![(3, observed()), (8, lost()), (9, lost())]) {
        Ok(_) => panic!("accepted"),
        Err(e) => e,
    };
    assert_eq!(e, "obsj line 8: obsj observation record missing \"sat\"");
    let (m, obs) = read_obsj::<f64, f32>(Vec::new()).unwrap();
    assert!(m.is_zero() && obs.is_empty());
}

#[test]
fn rfc3339_times() {
    let d = Instant { secs: 1_700_000_000, nanos: 250_000_000 };
    assert_eq!(parse_rfc3339_public("2023-11-14T22:13:20.25Z"), Some(d));
    assert_eq!(parse_rfc3339_public("2023-11-14T23:13:20.25+01:00"), Some(d));
    assert_eq!(parse_rfc3339_public("2023-11-14T22:13"), None);
    assert_eq!(parse_rfc3339_public("not a time"), None);
}

#[test]
fn fields_of_rfc3339_times_are_bounded() {
    for s in [
        "2026-13-01T00:00:00Z",
        "2026-00-01T00:00:00Z",
        "2026-01-32T00:00:00Z",
        "2026-02-29T00:00:00Z",
        "2026-02-31T00:00:00Z",
        "2026-04-31T00:00:00Z",
        "2026-01-01T24:00:00Z",
        "2026-01-01T00:60:00Z",
        "2026-01-01T00:00:61Z",
        "2026-01-01T00:00:00.+5Z",
        "2026-01-01T00:00:00+24:00",
        "2026-01-01T00:00:00-01:60",
    ] {
        assert_eq!(parse_rfc3339_public(s), None, "{}", s);
    }
    assert!(parse_rfc3339_public("2026-12-31T23:59:60Z").is_some());
    assert!(parse_rfc3339_public("2024-02-29T00:00:00-23:59").is_some());
}

#[test]
fn zoneless_times_round_trip() {
    let d = Instant { secs: 1_700_000_000, nanos: 250_000_000 };
    assert_eq!(zoneless_date_time(d), "2023-11-14T22:13:20.25");
    assert_eq!(parse_rfc3339_public(&zoneless_date_time(d)), Some(d));
    let whole = Instant { secs: 0, nanos: 0 };
    assert_eq!(zoneless_date_time(whole), "1970-01-01T00:00:00");
}

#[test]
fn hex_digits() {
    let mut out: Vec<u8> = Vec::new();
    hex_decode("d300FF", &mut out).unwrap();
    assert_eq!(out, vec![0xd3, 0x00, 0xff]);
    let mut bad: Vec<u8> = Vec::new();
    let mut left: Vec<u8> = vec![1, 2, 3];
    assert_eq!(hex_decode("d30", &mut left), Err("odd-length hex string".to_string()));
    assert!(left.is_empty());
    let told = "invalid hex string: invalid hex byte 0x7a at index 2".to_string();
    assert_eq!(hex_decode("d3zz", &mut bad), Err(told));
}

#[test]
fn tags_of_entries() {
    let e = Entry { t: None, tag: Some("UBX".to_string()), bin: None, ascii: None, out: false };
    assert_eq!(e.tag_str(), "UBX");
    let f = Entry { t: None, tag: None, bin: None, ascii: None, out: false };
    assert_eq!(f.tag_str(), "");
}

#[test]
fn backends() {
    assert!(matches!(parse_backend("auto"), Ok(None)));
    assert!(matches!(parse_backend("Internal"), Ok(Some(RinexBackend::Internal))));
    assert!(matches!(parse_backend("EXTERNAL"), Ok(Some(RinexBackend::External))));
    assert!(matches!(parse_rinex_backend("auto"), Ok(None)));
    assert!(matches!(parse_rinex_backend("diy"), Ok(Some(RinexBackend::Internal))));
    assert!(matches!(parse_rinex_backend("crate"), Ok(Some(RinexBackend::External))));
    assert!(parse_rinex_backend("magic").is_err());
    assert!(parse_backend("magic").is_err());
    assert!(matches!(resolve_input(None, false, true), Ok(RinexBackend::Internal)));
    assert!(matches!(resolve_input(None, true, true), Ok(RinexBackend::External)));
    assert!(resolve_input(None, true, false).is_err());
    assert!(resolve_input(Some(RinexBackend::Internal), true, true).is_err());
    let head =
        b"3.0                 COMPACT RINEX FORMAT                    CRINEX VERS   / TYPE\n";
    assert!(is_crinex(head));
    assert!(!is_crinex(b"     3.04           OBSERVATION DATA"));
}

#[test]
fn versions_and_names() {
    assert_eq!(parse_version("3.04"), (3, 4));
    assert_eq!(parse_version("4"), (4, 4));
    assert_eq!(parse_version(""), (3, 4));
    assert_eq!(non_empty(""), None);
    assert_eq!(non_empty("x"), Some("x".to_string()));
}

#[test]
fn a_record_is_planned() {
    let v = SignalValues { pr: Some(1.0), arc: 1, frq: Some(2), ..Default::default() };
    let obs: Vec<SignalObservation<f64, f64>> = vec![SignalObservation {
        t: GpsTime(5),
        sat: SatId(*b"R01"),
        sig: SigId(*b"1C"),
        v,
    }];
    let plan = match plan_record(&obs) {
        Ok(p) => p,
        Err(e) => panic!("{}", e),
    };
    assert_eq!(plan.first, GpsTime(5));
    assert_eq!(plan.last, GpsTime(5));
    assert!(plan.channels.iter().any(|c| c.0.as_str() == "R01" && c.1 == 2));
    assert!(plan.codes.iter().any(|c| c.0.contains("Glonass") || c.0.contains("GLO")));
    assert!(plan.signals.iter().any(|s| s.code.as_str() == "C1C" && s.val == Some(1.0)));
    let bad = vec![SignalObservation {
        t: GpsTime(5),
        sat: SatId(*b"X01"),
        sig: SigId(*b"1C"),
        v,
    }];
    assert!(plan_record(&bad).is_err());
    // Bytes that are no text name no satellite.
    let no_text = vec![SignalObservation { sat: SatId([0xff; 3]), ..bad[0] }];
    assert_eq!(plan_record(&no_text).err(), Some("invalid satellite ".to_string()));
    let wide = vec![SignalObservation { sat: SatId([0xc3, 0xa9, b'1']), ..bad[0] }];
    assert!(plan_record(&wide).is_err());
    assert!(obs[0].sig.code(b'C') == ObsCode(*b"C1C"));
}

#[test]
fn a_record_is_in_the_order_of_time() {
    let at = |t: i64, pr: f64| SignalObservation {
        t: GpsTime(t),
        sat: SatId(*b"G01"),
        sig: SigId(*b"1C"),
        v: SignalValues { pr: Some(pr), ..Default::default() },
    };
    // Those of the same time keep the order they had.
    let obs: Vec<SignalObservation<f64, f64>> = vec![at(9, 1.0), at(5, 2.0), at(9, 3.0), at(7, 4.0)];
    let plan = match plan_record(&obs) {
        Ok(p) => p,
        Err(e) => panic!("{}", e),
    };
    let values: Vec<Option<f64>> = plan.signals.iter().map(|s| s.val).collect();
    assert_eq!(values, vec![Some(2.0), Some(4.0), Some(1.0), Some(3.0)]);
    assert_eq!((plan.first, plan.last), (GpsTime(5), GpsTime(9)));
}

#[test]
fn a_record_is_read_back() {
    let s = |kind, value: f64, lli| RecordSignal {
        sat: Some(SatId(*b"G01")),
        sig: Some(SigId(*b"1C")),
        kind,
        value,
        strength: value as f32,
        lli,
    };
    let epochs = vec![
        RecordEpoch {
            t: GpsTime(1),
            signals: vec![s(ObsKind::Code, 7.0, None), s(ObsKind::SignalStrength, 40.0, None)],
        },
        RecordEpoch { t: GpsTime(2), signals: vec![s(ObsKind::Phase, 8.0, Some(1))] },
    ];
    let got = observations_from_record(&epochs);
    assert_eq!(got.len(), 2);
    assert_eq!((got[0].v.pr, got[0].v.cn0, got[0].v.arc), (Some(7.0), Some(40.0), 0));
    assert_eq!((got[1].v.cp, got[1].v.arc), (Some(8.0), 1));
}
