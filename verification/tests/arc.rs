use obsj::arc::{ArcToLl, LossOfLockSink};
use obsj::obs::{GpsTime, SatId, SigId, SignalKey, SignalObservation, SignalValues};
use obsj::rinex_read::accumulate_arc;
use obsj::sink::{Collector, Sink};

fn key() -> SignalKey {
    SignalKey { sat: SatId::format(b'G', 1), sig: SigId(*b"1C") }
}

fn obs(t: i64, ll: bool) -> SignalObservation<f64, f32> {
    let v = SignalValues { ll, cp: Some(1.0), ..Default::default() };
    SignalObservation { t: GpsTime(t), sat: SatId::format(b'G', 1), sig: SigId(*b"1C"), v }
}

#[test]
fn accumulates_arc_from_ll() {
    let mut sink = LossOfLockSink::new(Collector::<f64, f32>::new());
    for (i, ll) in [false, false, true, false, true].iter().enumerate() {
        sink.observation(&obs(i as i64, *ll)).unwrap();
    }
    let arcs: Vec<u32> = sink.inner().obs.iter().map(|o| o.v.arc).collect();
    assert_eq!(arcs, vec![0, 0, 1, 1, 2]);
    // `ll` is consumed: never leaks past the accumulator.
    assert!(sink.inner().obs.iter().all(|o| !o.v.ll));
}

#[test]
fn writer_lli_first_seen_uses_zero_baseline() {
    assert!(ArcToLl::new().lli(key(), 5)); // carried-in arc -> slip in the file
    assert!(!ArcToLl::new().lli(key(), 0));
}

#[test]
fn diff_transition_ignores_first_seen() {
    let mut t = ArcToLl::new();
    assert!(!t.transition(key(), 5)); // nothing to compare against yet
    assert!(!t.transition(key(), 5)); // 5 -> 5
    assert!(t.transition(key(), 6)); // 5 -> 6
}

#[test]
fn slips_written_are_slips_read() {
    // The indicators of a run of arc counts accumulate to the counts again.
    let arcs = [0u32, 0, 1, 2, 2];
    let mut w = ArcToLl::new();
    let stream: Vec<SignalObservation<f64, f32>> =
        arcs.iter().enumerate().map(|(i, a)| obs(i as i64, w.lli(key(), *a))).collect();
    let back = accumulate_arc(&stream);
    let got: Vec<u32> = back.iter().map(|o| o.v.arc).collect();
    assert_eq!(got, arcs.to_vec());
}

#[test]
fn arcs_are_kept_per_signal() {
    let mut sink = LossOfLockSink::new(Collector::<f64, f32>::new());
    sink.observation(&obs(0, true)).unwrap();
    let mut other = obs(0, false);
    other.sig = SigId(*b"2W");
    sink.observation(&other).unwrap();
    let inner = sink.into_inner();
    assert_eq!(inner.obs[0].v.arc, 1);
    assert_eq!(inner.obs[1].v.arc, 0);
}
