use obsj::metadata::Metadata;
use obsj::obs::{Civil, GpsTime, Instant, ObsCode, SatId, SigId, SignalObservation, SignalValues};
use obsj::obs::TICK_NS;
use obsj::rinex_read::{
    cn0_from_ssi, file_to_gps_time, parse_epoch_line, parse_rinex_time, parse_run_date,
    read_header, read_observation_file, read_signal_strength_unit, readable_text,
    system_time_system, ReadObservation, Reading,
};
use obsj::rinex_write::{
    append_obs_field, cut_bytes, format_run_date, header_line, write_observation_file,
};
use obsj::rinexobs::{build_obs_file, less_observation_code, sort_observation_codes, ObsField};

type TextObservation = SignalObservation<&'static [u8], &'static [u8]>;

fn epoch(secs: i64) -> GpsTime {
    let mut t = GpsTime::from_civil(Civil {
        year: 2026,
        month: 5,
        day: 19,
        hour: 0,
        minute: 0,
        second: 0,
        nanos: 0,
    });
    t.0 += secs * (1_000_000_000 / TICK_NS);
    t
}

fn pr_only(t: GpsTime, arc: u32) -> TextObservation {
    let v = SignalValues { pr: Some(&b"20000000.000"[..]), arc, ..Default::default() };
    SignalObservation { t, sat: SatId::format(b'G', 1), sig: SigId(*b"1C"), v }
}

fn number(d: &[u8], r: Reading) -> f64 {
    match r {
        Reading::Text(a, b) => std::str::from_utf8(&d[a..b]).unwrap().trim().parse().unwrap(),
        Reading::Whole(n) => n as f64,
    }
}

fn header() -> Metadata<&'static [u8]> {
    Metadata { version: "3.04".to_string(), ..Default::default() }
}

#[test]
fn blank_phase_round_trips() {
    // A pseudorange-only signal that loses lock: `arc` bumps but there is no
    // carrier phase. The writer must emit a blank phase field carrying only
    // the LLI, and the reader must read it back as cp=None with arc restored.
    let obs = vec![pr_only(epoch(0), 0), pr_only(epoch(1), 1)];
    let mut meta = header();
    let buf = write_observation_file(&mut meta, &obs).unwrap();

    let (_, back) = read_observation_file(&buf).unwrap();
    let first = back.iter().find(|o| o.t == epoch(0)).unwrap();
    let second = back.iter().find(|o| o.t == epoch(1)).unwrap();
    assert_eq!(first.v.arc, 0);
    assert_eq!(second.v.cp, None, "blank phase must read back as cp=None");
    assert_eq!(second.v.arc, 1, "the slip must survive as arc, via the LLI");
    assert_eq!(number(&buf, second.v.pr.unwrap()), 20_000_000.0);
}

fn lines(buf: &[u8]) -> Vec<String> {
    std::str::from_utf8(buf).unwrap().lines().map(|l| l.to_string()).collect()
}

#[test]
fn a_file_is_written_column_by_column() {
    let mut v: SignalValues<&'static [u8], &'static [u8]> = SignalValues::default();
    v.pr = Some(b"20000000.125");
    v.cp = Some(b"105099999.500");
    v.cn0 = Some(b"45.250");
    v.hc = true;
    let glo = SignalValues { frq: Some(-4), pr: Some(&b"1.000"[..]), ..Default::default() };
    let obs = vec![
        // Out of order: the file is written in the order of time.
        SignalObservation { t: epoch(30), sat: SatId(*b"R05"), sig: SigId(*b"1C"), v: glo },
        SignalObservation { t: epoch(0), sat: SatId(*b"G07"), sig: SigId(*b"2W"), v },
    ];
    let mut meta = header();
    meta.version = String::new();
    meta.marker.name = "SITE".to_string();
    meta.leap_seconds = Some(18);
    meta.interval = Some(b"30.000");
    meta.run.program = "obsj".to_string();
    meta.run.date = Some(Instant { secs: 1_700_000_000, nanos: 0 });
    meta.approx_position = Some([b"1.0000", b"-2.0000", b"3.5000"]);
    let buf = write_observation_file(&mut meta, &obs).unwrap();
    // The version that was written is reported back.
    assert_eq!(meta.version, "3.04");
    let l = lines(&buf);
    assert!(l.iter().take_while(|x| !x.contains("END OF HEADER")).all(|x| x.len() == 80));
    assert_eq!(
        l[0],
        "     3.04           OBSERVATION DATA    M: Mixed            RINEX VERSION / TYPE"
    );
    assert_eq!(
        l[1],
        "obsj                                    20231114 221320 UTC PGM / RUN BY / DATE "
    );
    assert!(l.contains(
        &"SITE                                                        MARKER NAME         "
            .to_string()
    ));
    assert!(l.contains(
        &"        1.0000       -2.0000        3.5000                  APPROX POSITION XYZ "
            .to_string()
    ));
    assert!(l.contains(
        &"G    3 C2W L2W S2W                                          SYS / # / OBS TYPES "
            .to_string()
    ));
    let r = l.iter().find(|x| x.starts_with('R')).unwrap();
    assert_eq!(
        r,
        "R    2 C1C L1C                                              SYS / # / OBS TYPES "
    );
    assert!(l.contains(
        &"    30.000                                                  INTERVAL            "
            .to_string()
    ));
    assert!(l.contains(
        &"  2026    05    19    00    00   00.0000000     GPS         TIME OF FIRST OBS   "
            .to_string()
    ));
    assert!(l.contains(
        &"  1 R05 -4                                                  GLONASS SLOT / FRQ #"
            .to_string()
    ));
    assert!(l.contains(
        &"    18                                                      LEAP SECONDS        "
            .to_string()
    ));
    let n = l.len();
    assert_eq!(l[n - 4].trim_end(), "> 2026 05 19 00 00 00.0000000  0  1");
    assert_eq!(l[n - 4].len(), 56);
    assert_eq!(l[n - 3].trim_end(), "G07  20000000.125   105099999.5002         45.250");
    assert_eq!(l[n - 2].trim_end(), "> 2026 05 19 00 00 30.0000000  0  1");
    assert_eq!(l[n - 1].trim_end(), "R05         1.000");

    let (back_meta, back) = read_observation_file(&buf).unwrap();
    assert_eq!(back_meta.marker.name, "SITE");
    assert_eq!(back_meta.leap_seconds, Some(18));
    assert_eq!(number(&buf, back_meta.interval.unwrap()), 30.0);
    assert_eq!(number(&buf, back_meta.approx_position.unwrap()[1]), -2.0);
    assert_eq!(back_meta.run.date, Some(Instant { secs: 1_700_000_000, nanos: 0 }));
    assert_eq!(back.len(), 2);
    let g: &ReadObservation = &back[0];
    assert_eq!((g.t, g.sat.as_str(), g.sig.as_str()), (epoch(0), "G07", "2W"));
    assert_eq!(number(&buf, g.v.cp.unwrap()), 105_099_999.5);
    assert_eq!(number(&buf, g.v.cn0.unwrap()), 45.25);
    assert!(g.v.hc && !g.v.bt);
    assert_eq!(back[1].v.frq, Some(-4));
}

#[test]
fn invalid_identifiers_are_not_written() {
    let mut o = pr_only(epoch(0), 0);
    o.sat = SatId(*b"X01");
    let mut meta = header();
    let e = write_observation_file(&mut meta, &[o]).unwrap_err();
    assert!(e.to_string().contains("X01"), "{}", e.to_string());
    let mut p = pr_only(epoch(0), 0);
    p.sig = SigId(*b"??");
    assert!(write_observation_file(&mut meta, &[p]).is_err());
}

#[test]
fn more_than_thirteen_codes_take_two_lines() {
    let sigs: [&[u8; 2]; 7] = [b"1C", b"1L", b"2L", b"2W", b"2S", b"5Q", b"5I"];
    let mut obs: Vec<TextObservation> = Vec::new();
    for s in sigs {
        let mut o = pr_only(epoch(0), 0);
        o.sig = SigId(*s);
        o.v.cp = Some(b"1.000");
        obs.push(o);
    }
    let mut meta = header();
    let buf = write_observation_file(&mut meta, &obs).unwrap();
    let l = lines(&buf);
    let at = l.iter().position(|x| x.starts_with("G   14 C1C L1C")).unwrap();
    assert!(l[at + 1].starts_with("       "));
    assert!(l[at + 1].ends_with("SYS / # / OBS TYPES "));
    let (_, back) = read_observation_file(&buf).unwrap();
    assert_eq!(back.len(), 7);
    assert!(back.iter().all(|o| o.v.pr.is_some() && o.v.cp.is_some()));
}

#[test]
fn long_header_texts_are_cut() {
    let mut meta = header();
    meta.marker.name = "x".repeat(100);
    let buf = write_observation_file(&mut meta, &[pr_only(epoch(0), 0)]).unwrap();
    assert!(lines(&buf)
        .contains(&format!("{}{}", "x".repeat(60), "MARKER NAME         ")));
    // A character is never cut in two.
    assert_eq!(cut_bytes("ab\u{e9}".as_bytes(), 3), b"ab");
    assert_eq!(cut_bytes(b"abc", 3), b"abc");
}

#[test]
fn code_order() {
    let c = |s: &[u8; 3]| ObsCode(*s);
    assert!(less_observation_code(c(b"C1C"), c(b"L1C")));
    assert!(less_observation_code(c(b"S1C"), c(b"C2W")));
    assert!(!less_observation_code(c(b"C1C"), c(b"C1C")));
    let mut v = vec![c(b"S2W"), c(b"L1C"), c(b"C2W"), c(b"C1C")];
    sort_observation_codes(&mut v);
    let names: Vec<String> = v.iter().map(|x| x.as_str().to_string()).collect();
    assert_eq!(names, vec!["C1C", "L1C", "C2W", "S2W"]);
}

#[test]
fn epochs_and_satellites_are_grouped() {
    let mut second = pr_only(epoch(0), 0);
    second.sig = SigId(*b"2W");
    let obs = vec![pr_only(epoch(1), 0), pr_only(epoch(0), 0), second];
    let f = match build_obs_file(&obs) {
        Ok(f) => f,
        Err(e) => panic!("{}", e),
    };
    assert_eq!(f.first, epoch(0));
    assert_eq!(f.last, epoch(1));
    assert_eq!(f.epochs.len(), 2);
    assert_eq!(f.epochs[0].sats.len(), 1);
    assert_eq!(f.epochs[0].sats[0].fields.len(), 2);
}

#[test]
fn fields_have_sixteen_columns() {
    let mut line: Vec<u8> = Vec::new();
    append_obs_field(&mut line, &ObsField { val: Some(&b"12.500"[..]), lli: 1 });
    assert_eq!(line, b"        12.5001 ");
    let mut blank: Vec<u8> = Vec::new();
    append_obs_field(&mut blank, &ObsField { val: None, lli: 1 });
    assert_eq!(blank, b"              1 ");
    let mut out: Vec<u8> = Vec::new();
    header_line(&mut out, b"abc", "COMMENT");
    assert_eq!(out.len(), 81);
}

#[test]
fn run_dates() {
    let d = Instant { secs: 1_700_000_000, nanos: 0 };
    assert_eq!(format_run_date(d), b"20231114 221320 UTC");
    assert_eq!(parse_run_date(b"20231114 221320 UTC"), Some(d));
    assert_eq!(parse_run_date(b"yesterday"), None);
}

#[test]
fn epoch_lines() {
    let (flag, n, t) = parse_epoch_line(b"> 2026 05 19 00 00 30.0000000  0  7").unwrap();
    assert_eq!((flag, n, t), (0, 7, epoch(30)));
    assert!(parse_epoch_line(b"2026 05 19").is_err());
    assert!(parse_epoch_line(b"> 2026 05 19 00 00 30.0000000  x  7").is_err());
    assert!(parse_rinex_time(b"2026", b"13", b"19", b"0", b"0", b"0.0").is_err());
}

#[test]
fn time_systems() {
    assert_eq!(system_time_system(1), "GLO");
    assert_eq!(system_time_system(4), "BDT");
    assert_eq!(system_time_system(0), "GPS");
    let t = epoch(0);
    // BeiDou time is 14 seconds behind GPS time; GLONASS time follows UTC.
    assert_eq!(file_to_gps_time(t, b"BDT", 18).0, t.0 + 14 * 10_000_000);
    assert_eq!(file_to_gps_time(t, b"GLO", 18).0, t.0 + 18 * 10_000_000);
    assert_eq!(file_to_gps_time(t, b"GPS", 18), t);
}

#[test]
fn strength_digits() {
    let got: Vec<u8> = (1..=9).map(cn0_from_ssi).collect();
    assert_eq!(got[0], 6);
    assert!(got.windows(2).all(|w| w[0] < w[1]));
    assert!(read_signal_strength_unit(b"DBHZ                ").is_ok());
    assert!(read_signal_strength_unit(b"FURLONG             ").is_err());
}

fn with_header(body: &str) -> Vec<u8> {
    let mut out: Vec<u8> = Vec::new();
    header_line(
        &mut out,
        b"     3.04           OBSERVATION DATA    G: GPS",
        "RINEX VERSION / TYPE",
    );
    header_line(&mut out, b"G    2 C1C S1C", "SYS / # / OBS TYPES");
    header_line(&mut out, b"", "END OF HEADER");
    out.extend_from_slice(body.as_bytes());
    out
}

#[test]
fn strength_without_a_value_comes_from_its_digit() {
    let d = with_header(
        "> 2026 05 19 00 00 00.0000000  0  1\nG01  20000000.000 7\n",
    );
    let (_, obs) = read_observation_file(&d).unwrap();
    assert_eq!(obs.len(), 1);
    assert_eq!(obs[0].v.cn0, Some(Reading::Whole(cn0_from_ssi(7))));
}

#[test]
fn reading_errors() {
    for (body, part) in [
        ("nonsense\n", "epoch"),
        ("> 2026 05 19 00 00 00.0000000  0  2\nG01  20000000.000\n", "epoch"),
        ("> 2026 05 32 00 00 00.0000000  0  1\nG01  20000000.000\n", "invalid epoch date"),
    ] {
        let e = match read_observation_file(&with_header(body)) {
            Ok(_) => panic!("{:?} was read", body),
            Err(e) => e.to_string(),
        };
        assert!(e.contains(part), "{:?}: {}", body, e);
    }
    assert!(read_header("").is_err());
}

// A byte that is not UTF-8 becomes a character of three bytes, and moves what stands
// behind it on its line by two columns.
#[test]
fn columns_are_those_of_the_text() {
    let mut d: Vec<u8> = Vec::new();
    header_line(&mut d, b"caf?", "MARKER NAME");
    header_line(&mut d, b"caf?", "REC # / TYPE / VERS");
    let caf: Vec<u8> = d.iter().map(|&b| if b == b'?' { 0xe9 } else { b }).collect();
    let body = with_header("> 2026 05 19 00 00 00.0000000  0  1\nG01  20000000.000 7\n");
    let file = [caf, body].concat();

    let (meta, obs) = read_observation_file(&file).unwrap();
    assert_eq!(meta.marker.name, "caf\u{fffd}");
    // The label of the second line is cut off behind its eighteenth character.
    assert_eq!(meta.receiver.number, "");
    assert_eq!(obs.len(), 1);
    let text = readable_text(&file);
    assert_eq!(text.len(), file.len() + 4);
    assert_eq!(number(text.as_bytes(), obs[0].v.pr.unwrap()), 20_000_000.0);

    let ascii = with_header("> 2026 05 19 00 00 00.0000000  0  0\n");
    assert_eq!(readable_text(&ascii).as_bytes(), &ascii[..]);
    let umlaut = String::from_utf8(ascii.clone()).unwrap().replace("GPS", "GP\u{e4}");
    assert_eq!(readable_text(umlaut.as_bytes()), umlaut);
}
