use obsj::cli::{
    apply_metadata_flags, check_arguments, header_date_to_instant, input_error, is_gzip, parse_input,
    parse_output, parse_xyz, read_header_file, set_metadata_defaults, split_lines, Arguments,
    HeaderComment, HeaderDate, HeaderFile, HeaderRun, MetadataFlags, ObsFormat, OutputFormat,
};
use obsj::diff::{DiffRecord, SignalDiff};
use obsj::diffobs::{
    check_diff_arguments, compares_exactly, diff_line, parse_diff_arguments, parse_format,
    report,
};
use obsj::metadata::Metadata;
use obsj::obs::{GpsTime, Instant, SatId, SigId, SignalValues};
use obsj::packet::InputFormat;
use obsj::rinex_read::Reading;
use obsj::week::WeekMode;

fn plain() -> Arguments {
    Arguments {
        from: "ubx".to_string(),
        to: "obsj".to_string(),
        packet_log: false,
        date: String::new(),
        recent: false,
        date_from_filename: false,
        rtcm_strict_prr: false,
        rtcm_omit_zero_do: false,
        ubx_slip_threshold: "15".to_string(),
        ubx_slip_threshold_given: false,
        ubx_bds_geo_half_cycle: false,
        unc_omit_do_without_cp: false,
        interval: Some((0, false)),
        ppp_ar: false,
        rinex_backend: "auto".to_string(),
        inputs: vec!["in.ubx".to_string()],
        output: None,
    }
}

#[test]
fn arguments_are_checked() {
    let c = check_arguments(plain()).unwrap_or_else(|e| panic!("{}", e));
    assert_eq!(c.from, InputFormat::Ubx);
    assert_eq!(c.to, OutputFormat::ObsJson);
    assert_eq!(c.week_mode, WeekMode::Auto);
    assert_eq!(c.ubx_opts.slip_threshold, 15);
    assert_eq!(c.interval_ns, 0);
}

#[test]
fn argument_errors() {
    let fail = |a: Arguments| match check_arguments(a) {
        Ok(_) => panic!("accepted"),
        Err(e) => e,
    };
    assert!(fail(Arguments { from: "xyz".to_string(), ..plain() }).contains("xyz"));
    assert!(fail(Arguments { to: "xyz".to_string(), ..plain() }).contains("xyz"));
    let two = Arguments {
        from: "rtcm".to_string(),
        recent: true,
        date: "20260101".to_string(),
        ..plain()
    };
    assert!(!fail(two).is_empty());
    let bad_date =
        Arguments { from: "rtcm".to_string(), date: "20261301".to_string(), ..plain() };
    assert!(!fail(bad_date).is_empty());
    assert!(!fail(Arguments { ubx_slip_threshold: "256".to_string(), ..plain() }).is_empty());
    assert!(fail(Arguments { interval: None, ..plain() }).contains("--interval"));
    assert!(!fail(Arguments { interval: Some((500_000_000, true)), ..plain() }).is_empty());
    assert!(!fail(Arguments { rinex_backend: "magic".to_string(), ..plain() }).is_empty());
}

#[test]
fn format_names() {
    assert!(matches!(parse_input("rinex"), Ok(InputFormat::Rinex)));
    assert!(matches!(parse_input("raw"), Ok(InputFormat::Raw)));
    assert!(parse_input("").is_err());
    assert!(matches!(parse_output("rinex"), Ok(OutputFormat::Rinex)));
    assert!(parse_output("ubx").is_err());
    assert_eq!(input_error("a.ubx", "gone"), "a.ubx: gone");
}

#[test]
fn metadata_defaults_and_flags() {
    let mut m: Metadata<f64> = Metadata::default();
    let now = Instant { secs: 1_700_000_000, nanos: 5 };
    set_metadata_defaults(&mut m, now, "me", Some(30.0));
    assert_eq!(m.run.by, "me");
    assert_eq!(m.interval, Some(30.0));
    assert!(m.run.date.is_some());
    apply_metadata_flags(
        &mut m,
        MetadataFlags {
            rinex_version: Some("4.00".to_string()),
            program: None,
            run_by: Some("you".to_string()),
            antenna: None,
            approx_pos: Some(Some([1.0, 2.0, 3.0])),
            comment: Some(vec!["hello".to_string()]),
        },
    );
    assert_eq!(m.version, "4.00");
    assert_eq!(m.run.by, "you");
    assert_eq!(m.approx_position, Some([1.0, 2.0, 3.0]));
    assert_eq!(m.comment, vec!["hello".to_string()]);
}

#[test]
fn positions_are_three_numbers() {
    let s = "1.5,-2,3e3";
    let p = parse_xyz(s, "--pos").unwrap_or_else(|e| panic!("{}", e));
    let at = |r: Reading| match r {
        Reading::Text(a, b) => s[a..b].trim().parse::<f64>().unwrap(),
        Reading::Whole(n) => n as f64,
    };
    assert_eq!([at(p[0]), at(p[1]), at(p[2])], [1.5, -2.0, 3000.0]);
    assert!(parse_xyz("1,2", "--pos").is_err());
    assert!(parse_xyz("1,2,x", "--pos").unwrap_err().contains("--pos"));
}

#[test]
fn comments_are_split_at_line_ends() {
    assert_eq!(split_lines("a\nb"), vec!["a".to_string(), "b".to_string()]);
    assert_eq!(split_lines("a"), vec!["a".to_string()]);
}

#[test]
fn header_files() {
    let d = HeaderDate { date: Some((2023, 11, 14)), time: Some((22, 13, 20, 0)) };
    assert_eq!(
        header_date_to_instant(Some(d)),
        Some(Instant { secs: 1_700_000_000, nanos: 0 })
    );
    let f: HeaderFile<f64> = HeaderFile {
        version: None,
        run: Some(HeaderRun { program: Some("p".to_string()), by: None, date: None }),
        comment: Some(HeaderComment::One("x\ny".to_string())),
        marker: Some((Some("n".to_string()), None, None)),
        observer: None,
        agency: None,
        receiver: None,
        antenna: Some((Some("1".to_string()), Some("t".to_string()))),
        approx_position: None,
        antenna_delta: Some([0.0, 0.5, 0.0]),
        interval: None,
        leap_seconds: Some(18),
    };
    let m = read_header_file(f);
    assert_eq!(m.run.program, "p");
    assert_eq!(m.comment, vec!["x".to_string(), "y".to_string()]);
    assert_eq!(m.marker.name, "n");
    assert_eq!((m.antenna.number.as_str(), m.antenna.type_.as_str()), ("1", "t"));
    assert_eq!(m.antenna_delta, Some([0.0, 0.5, 0.0]));
    assert_eq!(m.leap_seconds, Some(18));
}

fn args(a: &[&str]) -> Vec<String> {
    a.iter().map(|s| s.to_string()).collect()
}

#[test]
fn diff_arguments() {
    let a = args(&[
        "--pr-tol",
        "0.001",
        "--format",
        "obsj",
        "--b-format",
        "rinex",
        "--ignore-marker",
        "a",
        "b",
    ]);
    let d = match parse_diff_arguments(&a) {
        Ok(Some(d)) => d,
        _ => panic!("arguments"),
    };
    assert_eq!(d.pr.as_deref(), Some("0.001"));
    assert!(d.ignore_marker && !d.ignore_blank_phase);
    assert_eq!(d.files, vec!["a".to_string(), "b".to_string()]);
    let job = check_diff_arguments(d).unwrap_or_else(|e| panic!("{}", e));
    assert!(job.a_format == ObsFormat::Obsj && job.b_format == ObsFormat::Rinex);
    assert!(!compares_exactly(&job));
    assert!(matches!(parse_diff_arguments(&args(&["--help"])), Ok(None)));
    assert!(parse_diff_arguments(&args(&["--nonsense"])).is_err());
    assert!(parse_format(Some(&"tape".to_string())).is_err());
}

#[test]
fn diff_lines() {
    let mut v: SignalValues<&[u8], &[u8]> = SignalValues::default();
    v.pr = Some(b"1.5");
    let side = SignalDiff { v, ll: false };
    let d = DiffRecord {
        t: GpsTime(0),
        sat: SatId(*b"G01"),
        sig: SigId(*b"1C"),
        a: Some(side),
        b: None,
    };
    let line = String::from_utf8(diff_line(&d)).unwrap();
    assert!(line.contains("G01") && line.contains("1.5"), "{}", line);
}

#[test]
fn a_report_tells_whether_files_differ() {
    let same: Metadata<f64> = Metadata::default();
    let mut other: Metadata<f64> = Metadata::default();
    other.agency = "x".to_string();
    let lines = vec![b"one\n".to_vec(), b"two\n".to_vec()];
    assert_eq!(report(&same, &same, &Vec::new()), (Vec::new(), false));
    assert_eq!(report(&same, &same, &lines), (b"one\ntwo\n".to_vec(), true));
    assert_eq!(report(&same, &other, &Vec::new()), (b"{\"metadata\":true}\n".to_vec(), true));
    let all = b"{\"metadata\":true}\none\ntwo\n".to_vec();
    assert_eq!(report(&other, &same, &lines), (all, true));
}

#[test]
fn gzip_is_told_by_its_first_bytes() {
    assert!(is_gzip(&[0x1f, 0x8b]));
    assert!(is_gzip(&[0x1f, 0x8b, 8]));
    for head in [&[][..], &[0x1f], &[0x8b, 0x1f], &[0x1f, 0x8c]] {
        assert!(!is_gzip(head));
    }
}
