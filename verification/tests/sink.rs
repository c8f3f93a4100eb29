use obsj::error::Result;
use obsj::metadata::Metadata;
use obsj::obs::{Civil, GpsTime, SatId, SigId, SignalObservation, SignalValues};
use obsj::sink::{
    decimation_interval_ticks, filtered, validate_decimation_interval, Collector, DecimationSink,
    Filtered, RequireCpFilter, Sink,
};

#[derive(Default)]
struct Recorder {
    meta: Vec<String>,
    obs: Vec<SignalObservation<f64, f32>>,
    flushed: bool,
}

impl Sink<f64, f32> for Recorder {
    fn metadata(&mut self, m: &Metadata<f64>) -> Result<()> {
        self.meta.push(m.marker.name.clone());
        Ok(())
    }
    fn observation(&mut self, o: &SignalObservation<f64, f32>) -> Result<()> {
        self.obs.push(*o);
        Ok(())
    }
    fn flush(&mut self) -> Result<()> {
        self.flushed = true;
        Ok(())
    }
}

fn at(second: u32, nanos: u32) -> GpsTime {
    GpsTime::from_civil(Civil {
        year: 2025,
        month: 7,
        day: 1,
        hour: 0,
        minute: 0,
        second,
        nanos,
    })
}

fn obs(t: GpsTime, sig: &[u8; 2], v: SignalValues<f64, f32>) -> SignalObservation<f64, f32> {
    SignalObservation { t, sat: SatId::format(b'G', 3), sig: SigId(*sig), v }
}

fn pr(t: GpsTime, sig: &[u8; 2], pr: f64) -> SignalObservation<f64, f32> {
    obs(t, sig, SignalValues { pr: Some(pr), ..Default::default() })
}

#[test]
fn rejects_invalid_interval() {
    // Subsecond, sub-tick, and non-day-divisor intervals each fail with a
    // distinct message.
    assert!(decimation_interval_ticks(500_000_000)
        .unwrap_err()
        .to_string()
        .contains("at least 1 second"));
    assert!(decimation_interval_ticks(1_000_000_001)
        .unwrap_err()
        .to_string()
        .contains("multiple of 100ns"));
    assert!(decimation_interval_ticks(7_000_000_000)
        .unwrap_err()
        .to_string()
        .contains("divide one GPS day"));
    // A valid interval returns its length in ticks.
    assert_eq!(decimation_interval_ticks(5_000_000_000).unwrap(), 50_000_000);
    assert!(validate_decimation_interval(5_000_000_000).is_ok());
}

#[test]
fn keeps_only_rounded_grid_epochs() {
    let ticks = decimation_interval_ticks(5_000_000_000).unwrap();
    let mut sink = DecimationSink::new(Recorder::default(), ticks);
    let mut meta: Metadata<f64> = Metadata::default();
    meta.marker.name = "MARK".to_string();
    sink.metadata(&meta).unwrap();
    // .049 rounds to 0.0 (on the 5 s grid); .051 -> 0.1 (off); 4.951 -> 5.0
    // (on); 5.051 -> 5.1 (off).
    let records = [
        pr(at(0, 49_000_000), b"1C", 1.0),
        pr(at(0, 51_000_000), b"1C", 2.0),
        pr(at(4, 951_000_000), b"1C", 3.0),
        pr(at(5, 51_000_000), b"1C", 4.0),
    ];
    for o in &records {
        sink.observation(o).unwrap();
    }
    sink.flush().unwrap();
    let r = &sink.sink;
    assert_eq!(r.meta.len(), 1);
    assert_eq!(r.meta[0], "MARK");
    assert_eq!(r.obs.len(), 2);
    assert_eq!(r.obs[0].t.0, records[0].t.0);
    assert_eq!(r.obs[1].t.0, records[2].t.0);
    assert!(r.flushed, "flush must reach the wrapped sink");
}

#[test]
fn forwards_fields_unchanged_for_kept_epochs() {
    // DecimationSink only filters by grid; it never touches arc/HC/BT
    // (that is the LossOfLockSink's job, upstream).
    let ticks = decimation_interval_ticks(10_000_000_000).unwrap();
    let mut sink = DecimationSink::new(Recorder::default(), ticks);
    let off_grid = SignalValues { arc: 1, ..Default::default() };
    sink.observation(&obs(at(1, 0), b"1C", off_grid)).unwrap();
    sink.observation(&obs(at(2, 0), b"1C", off_grid)).unwrap();
    sink.observation(&obs(
        at(10, 0),
        b"1C",
        SignalValues { pr: Some(1.0), arc: 1, ..Default::default() },
    ))
    .unwrap();
    sink.observation(&obs(
        at(10, 0),
        b"2S",
        SignalValues { pr: Some(2.0), arc: 1, bt: true, ..Default::default() },
    ))
    .unwrap();
    let r = &sink.sink;
    assert_eq!(r.obs.len(), 2);
    assert_eq!((r.obs[0].v.arc, r.obs[0].v.hc, r.obs[0].v.bt), (1, false, false));
    assert_eq!((r.obs[1].v.arc, r.obs[1].v.hc, r.obs[1].v.bt), (1, false, true));
}

#[test]
fn require_cp_drops_phaseless() {
    let mut sink = RequireCpFilter::new(Recorder::default());
    sink.observation(&obs(at(0, 0), b"1C", SignalValues { cp: Some(1.0), ..Default::default() }))
        .unwrap();
    sink.observation(&pr(at(1, 0), b"1C", 2.0)).unwrap();
    assert_eq!(sink.sink.obs.len(), 1);
    assert_eq!(sink.sink.obs[0].v.cp, Some(1.0));
}

#[test]
fn collector_merges_metadata() {
    let mut c: Collector<f64, f32> = Collector::new();
    let mut m: Metadata<f64> = Metadata::default();
    m.observer = "one".to_string();
    m.comment.push("a".to_string());
    c.metadata(&m).unwrap();
    let mut n: Metadata<f64> = Metadata::default();
    n.agency = "two".to_string();
    n.comment.push("b".to_string());
    c.metadata(&n).unwrap();
    assert_eq!(c.meta.observer, "one");
    assert_eq!(c.meta.agency, "two");
    assert_eq!(c.meta.comment, vec!["a".to_string(), "b".to_string()]);
    c.observation(&pr(at(0, 0), b"1C", 2.0)).unwrap();
    assert_eq!(c.obs.len(), 1);
}

#[test]
fn merging_nothing_changes_nothing() {
    let mut m: Metadata<f64> = Metadata::default();
    m.receiver.number = "rx".to_string();
    m.leap_seconds = Some(18);
    m.merge(&Metadata::default());
    assert_eq!(m.receiver.number, "rx");
    assert_eq!(m.leap_seconds, Some(18));
    assert!(Metadata::<f64>::default().is_zero());
}

#[test]
fn the_grid_repeats_every_day() {
    let ticks = decimation_interval_ticks(30_000_000_000).unwrap();
    let sink = DecimationSink::new(Recorder::default(), ticks);
    let t = at(30, 0);
    let day = 86_400 * 10_000_000;
    assert!(sink.on_grid(t) && sink.on_grid(GpsTime(t.0 + day)));
    let u = at(31, 0);
    assert!(!sink.on_grid(u) && !sink.on_grid(GpsTime(u.0 + day)));
}

#[test]
fn filters_stand_in_front_of_a_sink() {
    let phase = |t| obs(t, b"1C", SignalValues { cp: Some(1.0), ..Default::default() });
    let kept = |interval_ns, require_cp| {
        let mut f = filtered(Recorder::default(), interval_ns, require_cp).unwrap();
        for o in [phase(at(0, 0)), pr(at(0, 0), b"1C", 2.0), phase(at(1, 0)), pr(at(1, 0), b"1C", 2.0)] {
            f.observation(&o).unwrap();
        }
        f.metadata(&Metadata::default()).unwrap();
        Sink::<f64, f32>::flush(&mut f).unwrap();
        let inner = match f {
            Filtered::All(s) => s,
            Filtered::Decimated(s) => s.sink,
            Filtered::Phase(s) => s.sink,
            Filtered::PhaseDecimated(s) => s.sink.sink,
        };
        assert!(inner.flushed && inner.meta.len() == 1);
        inner.obs.len()
    };
    assert_eq!(kept(0, false), 4);
    assert_eq!(kept(0, true), 2);
    assert_eq!(kept(5_000_000_000, false), 2);
    assert_eq!(kept(5_000_000_000, true), 1);
    for (ns, part) in [
        (-1, "at least 1 second"),
        (500_000_000, "at least 1 second"),
        (1_000_000_001, "multiple of 100ns"),
        (7_000_000_000, "divide one GPS day"),
    ] {
        let e = filtered(Recorder::default(), ns, true).err().unwrap();
        assert!(e.to_string().contains(part));
    }
}
