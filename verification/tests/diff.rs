use obsj::diff::{align, diff_metadata, diff_observations, diff_signal, DiffRecord};
use obsj::diff::{MetadataNear, Near};
use obsj::metadata::{Antenna, Marker, Metadata, Receiver};
use obsj::obs::{GpsTime, SatId, SigId, SignalObservation, SignalValues};

type Values = SignalValues<f64, f32>;
type Observation = SignalObservation<f64, f32>;

const TOL: f64 = 5e-4;
const TOL_CN0: f32 = 5e-4;
const MTOL: f64 = 5e-5;

fn close(a: Option<f64>, b: Option<f64>) -> bool {
    matches!((a, b), (Some(x), Some(y)) if (x - y).abs() <= TOL)
}

fn near(a: &Values, b: &Values) -> Near {
    Near {
        pr: close(a.pr, b.pr),
        cp: close(a.cp, b.cp),
        dop: close(a.dop, b.dop),
        cn0: matches!((a.cn0, b.cn0), (Some(x), Some(y)) if (x - y).abs() <= TOL_CN0),
    }
}

const FAR: Near = Near { pr: false, cp: false, dop: false, cn0: false };

fn compare(a: &[Observation], b: &[Observation]) -> Vec<DiffRecord<f64, f32>> {
    let pairs = align(a, b);
    let judged: Vec<Near> = pairs
        .iter()
        .map(|p| match (p.a, p.b) {
            (Some(i), Some(j)) => near(&a[i].v, &b[j].v),
            _ => FAR,
        })
        .collect();
    diff_observations(a, b, &pairs, &judged, false)
}

fn obs(t: i64, sat: &[u8; 3], sig: &[u8; 2], v: Values) -> Observation {
    SignalObservation { t: GpsTime(t), sat: SatId(*sat), sig: SigId(*sig), v }
}

#[test]
fn diff_signal_cases() {
    let a = Values { pr: Some(1.0), cp: Some(2.0), arc: 1, ..Default::default() };
    let b = Values { pr: Some(1.001), cp: Some(2.0), hc: true, ..Default::default() };

    // Both missing.
    assert!(matches!(diff_signal::<f64, f32>(None, None, FAR), (None, None)));

    // One side missing reports the present side verbatim, with arc cleared.
    let (ra, rb) = diff_signal(None, Some(&b), FAR);
    assert!(ra.is_none());
    assert!(rb.unwrap().v == b, "{:?}", rb.unwrap().v);
    let (ra, rb) = diff_signal(Some(&a), None, FAR);
    assert!(rb.is_none());
    let want_a = Values { pr: Some(1.0), cp: Some(2.0), ..Default::default() }; // arc cleared
    assert!(ra.unwrap().v == want_a, "{:?}", ra.unwrap().v);

    // Identical sides report empty diffs.
    let (ra, rb) = diff_signal(Some(&a), Some(&a), near(&a, &a));
    assert!(ra.unwrap().v.is_zero() && rb.unwrap().v.is_zero());

    // Differing values: pr out of tol is reported, cp within tol is not, the
    // hc bit is reported, and arc is never compared.
    let (ra, rb) = diff_signal(Some(&a), Some(&b), near(&a, &b));
    let (ra, rb) = (ra.unwrap(), rb.unwrap());
    assert_eq!(ra.v.pr, Some(1.0));
    assert_eq!(rb.v.pr, Some(1.001));
    assert_eq!(ra.v.cp, None);
    assert_eq!(rb.v.cp, None);
    assert!(!ra.v.hc && rb.v.hc);

    // A field present on one side only is a difference.
    let one = Values { pr: Some(1.0), ..Default::default() };
    let none = Values::default();
    let (ra, rb) = diff_signal(Some(&one), Some(&none), near(&one, &none));
    assert_eq!(ra.unwrap().v.pr, Some(1.0));
    assert!(rb.unwrap().v.is_zero());

    // Within tolerance on every field is no difference.
    let close_a = Values { pr: Some(1.0), cn0: Some(45.0), ..Default::default() };
    let close_b = Values { pr: Some(1.0001), cn0: Some(45.0001), ..Default::default() };
    let (ra, rb) = diff_signal(Some(&close_a), Some(&close_b), near(&close_a, &close_b));
    assert!(ra.unwrap().v.is_zero() && rb.unwrap().v.is_zero());
}

#[test]
fn diff_observations_reports_missing_side() {
    let a = [obs(1, b"G01", b"1C", Values { pr: Some(1.0), ..Default::default() })];
    let b = [obs(1, b"G02", b"1C", Values { pr: Some(2.0), ..Default::default() })];
    let diffs = compare(&a, &b);
    assert_eq!(diffs.len(), 2);
    // Keys sort (G01, then G02).
    assert!(diffs[0].a.is_some() && diffs[0].b.is_none());
    assert!(diffs[1].a.is_none() && diffs[1].b.is_some());
}

#[test]
fn diff_observations_arc_transition_ll() {
    // PR is identical throughout, so the only differences are loss-of-lock
    // transitions where the two streams' arc counters step at different
    // epochs.
    let mk = |t: i64, arc: u32| {
        obs(t, b"G01", b"1C", Values { pr: Some(1.0), arc, ..Default::default() })
    };
    // a transitions at t2 and t4; b transitions at t3 and t4.
    let a = [mk(10, 0), mk(20, 1), mk(30, 1), mk(40, 2)];
    let b = [mk(10, 0), mk(20, 0), mk(30, 1), mk(40, 2)];
    let diffs = compare(&a, &b);
    // t4: both transition -> agreement, no record. t1: first-seen, none.
    assert_eq!(diffs.len(), 2);
    assert_eq!(diffs[0].t.0, 20);
    assert!(diffs[0].a.unwrap().ll && !diffs[0].b.unwrap().ll);
    assert_eq!(diffs[1].t.0, 30);
    assert!(!diffs[1].a.unwrap().ll && diffs[1].b.unwrap().ll);
}

fn triples(a: Option<[f64; 3]>, b: Option<[f64; 3]>) -> bool {
    match (a, b) {
        (Some(x), Some(y)) => (0..3).all(|i| (x[i] - y[i]).abs() <= MTOL),
        (None, None) => true,
        _ => false,
    }
}

fn metadata_near(a: &Metadata<f64>, b: &Metadata<f64>) -> MetadataNear {
    MetadataNear {
        approx_position: triples(a.approx_position, b.approx_position),
        antenna_delta: triples(a.antenna_delta, b.antenna_delta),
        interval: a.interval == b.interval,
    }
}

#[test]
fn diff_metadata_fields() {
    let a = Metadata {
        version: "3.04".to_string(),
        marker: Marker {
            name: "mark-a".to_string(),
            number: "001".to_string(),
            ..Default::default()
        },
        observer: "obs-a".to_string(),
        agency: "same-agency".to_string(),
        receiver: Receiver {
            number: "rx-a".to_string(),
            type_: "rx-type".to_string(),
            version: "rx-vers".to_string(),
        },
        antenna: Antenna { number: "ant-num".to_string(), type_: "ant-a".to_string() },
        approx_position: Some([1.0, 2.0, 3.0]),
        antenna_delta: Some([0.0, 0.0, 0.0]),
        interval: Some(30.0),
        leap_seconds: Some(18),
        ..Default::default()
    };
    let b = Metadata {
        version: "4.02".to_string(),
        marker: Marker {
            name: "mark-b".to_string(),
            type_: "GEODETIC".to_string(),
            ..Default::default()
        },
        observer: "obs-b".to_string(),
        agency: "same-agency".to_string(),
        receiver: Receiver {
            number: "rx-b".to_string(),
            type_: "rx-type".to_string(),
            version: "rx-vers".to_string(),
        },
        antenna: Antenna { number: "ant-num".to_string(), type_: "ant-b".to_string() },
        // Within 5e-5 on x -> not reported.
        approx_position: Some([1.00004, 2.0, 3.0]),
        // 2e-4 on y -> reported.
        antenna_delta: Some([0.0, 0.0002, 0.0]),
        interval: Some(15.0),
        leap_seconds: None,
        ..Default::default()
    };
    let (da, db) = diff_metadata(&a, &b, metadata_near(&a, &b), false);
    assert_eq!((da.version.as_str(), db.version.as_str()), ("3.04", "4.02"));
    // Marker (not ignored): name, number, type each reported per side.
    assert_eq!(da.marker.name, "mark-a");
    assert_eq!(db.marker.name, "mark-b");
    assert_eq!(da.marker.number, "001");
    assert_eq!(db.marker.number, "");
    assert_eq!(da.marker.type_, "");
    assert_eq!(db.marker.type_, "GEODETIC");
    assert_eq!((da.observer.as_str(), db.observer.as_str()), ("obs-a", "obs-b"));
    // agency matches -> not reported.
    assert_eq!((da.agency.as_str(), db.agency.as_str()), ("", ""));
    assert_eq!(da.receiver.number, "rx-a");
    assert_eq!(db.receiver.number, "rx-b");
    assert_eq!(da.receiver.type_, ""); // matches
    assert_eq!(da.antenna.type_, "ant-a");
    assert_eq!(db.antenna.type_, "ant-b");
    assert_eq!(da.antenna.number, ""); // matches

    // approx position within tolerance -> not reported.
    assert_eq!(da.approx_position, None);
    assert_eq!(db.approx_position, None);
    // antenna delta out of tolerance -> reported verbatim.
    assert_eq!(da.antenna_delta, Some([0.0, 0.0, 0.0]));
    assert_eq!(db.antenna_delta, Some([0.0, 0.0002, 0.0]));
    assert_eq!((da.interval, db.interval), (Some(30.0), Some(15.0)));
    assert_eq!((da.leap_seconds, db.leap_seconds), (Some(18), None));
}

#[test]
fn diff_metadata_ignore_marker() {
    // With ignore_marker, differing markers are not reported: an RTCM stream and
    // its conversion split the station id across name and number.
    let a: Metadata<f64> = Metadata {
        marker: Marker { name: "STA".to_string(), ..Default::default() },
        ..Default::default()
    };
    let b: Metadata<f64> = Metadata {
        marker: Marker { number: "STA".to_string(), ..Default::default() },
        ..Default::default()
    };
    let (da, db) = diff_metadata(&a, &b, metadata_near(&a, &b), true);
    assert!(da.is_zero() && db.is_zero());
}

#[test]
fn alignment_is_ordered_by_time_and_signal() {
    let v = Values::default();
    let a = [obs(2, b"G01", b"1C", v), obs(1, b"R02", b"1C", v)];
    let b = [obs(1, b"E03", b"1C", v), obs(2, b"G01", b"1C", v)];
    let got: Vec<(i64, Option<usize>, Option<usize>)> =
        align(&a, &b).iter().map(|p| (p.t, p.a, p.b)).collect();
    assert_eq!(
        got,
        vec![(1, None, Some(0)), (1, Some(1), None), (2, Some(0), Some(1))]
    );
}

#[test]
fn a_stream_does_not_differ_from_itself() {
    let v = Values { pr: Some(1.0), cp: Some(2.0), arc: 3, ..Default::default() };
    let a = [obs(1, b"G01", b"1C", v), obs(2, b"G01", b"1C", Values { arc: 4, ..v })];
    assert!(compare(&a, &a).is_empty());
}

#[test]
fn blank_phases_are_ignored_on_request() {
    let a = [obs(1, b"G01", b"1C", Values { cp: Some(1.0), ..Default::default() })];
    let b = [obs(1, b"G01", b"1C", Values::default())];
    let pairs = align(&a, &b);
    assert_eq!(diff_observations(&a, &b, &pairs, &[FAR], false).len(), 1);
    assert!(diff_observations(&a, &b, &pairs, &[FAR], true).is_empty());
}
