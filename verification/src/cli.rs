//! What a command line asks for: the checks on its options, the header facts that
//! it gives, and how errors name their input.

use crate::columns::{is_float, is_float_text};
use crate::metadata::{
    no_metadata, text_or, texts, Antenna, AntennaView, Marker, MarkerView, Metadata, MetadataRun,
    MetadataRunView, MetadataView, Receiver, ReceiverView,
};
use crate::obs::{Civil, Instant};
use crate::packet::InputFormat;
use crate::rinex_backend::{
    backend_of, is_name, lowercase, lowercase_text, named, parse_backend, RinexBackend,
};
use crate::rinex_read::Reading;
use crate::rinex_write::{cut, cut_bytes};
use crate::sink::{decimation_interval_ticks, DAY_NS};
use crate::text::{
    find_byte, first_index, lossy_text, parse_uint, quoted_text, text_of, trimmed, uint_text, utf8,
    with_quoted, within,
};
use crate::week::{parse_yyyymmdd, yyyymmdd, WeekMode};
use crate::{rtcm, ubx};
use vstd::prelude::*;
use vstd::slice::slice_subrange;

verus! {

/// What an output is written as.
#[derive(Clone, Copy, Debug, PartialEq, Eq, Structural)]
pub enum OutputFormat {
    Rinex,
    ObsJson,
}

/// The format of an observation file, selected by an explicit option, never
/// inferred from the file name.
#[derive(Clone, Copy, Debug, PartialEq, Eq, Structural)]
pub enum ObsFormat {
    Obsj,
    Rinex,
}

/// The values of the options of a command line, as they were given.
pub struct Arguments {
    pub from: String,
    pub to: String,
    pub packet_log: bool,
    /// Empty where no date is given.
    pub date: String,
    pub recent: bool,
    pub date_from_filename: bool,
    pub rtcm_strict_prr: bool,
    pub rtcm_omit_zero_do: bool,
    pub ubx_slip_threshold: String,
    /// Whether the threshold stands on the command line.
    pub ubx_slip_threshold_given: bool,
    pub ubx_bds_geo_half_cycle: bool,
    pub unc_omit_do_without_cp: bool,
    /// The interval in nanoseconds, and whether it is more than 0; none where it
    /// is not a finite number of seconds, or a negative one.
    pub interval: Option<(i64, bool)>,
    pub ppp_ar: bool,
    pub rinex_backend: String,
    pub inputs: Vec<String>,
    pub output: Option<String>,
}

/// A conversion that was asked for.
pub struct Config {
    pub from: InputFormat,
    pub to: OutputFormat,
    pub packet_log: bool,
    pub require_cp: bool,
    pub interval_ns: i64,
    pub week_mode: WeekMode,
    pub week_date: Instant,
    pub inputs: Vec<String>,
    pub output_path: Option<String>,
    pub rinex_backend: Option<RinexBackend>,
    pub rtcm_opts: rtcm::Options,
    pub ubx_opts: ubx::Options,
}

/// The input format that an option names, or what is wrong with it.
pub open spec fn input_of(s: Seq<char>) -> Result<InputFormat, Seq<char>> {
    if is_name(s, "raw"@) {
        Ok(InputFormat::Raw)
    } else if is_name(s, "ubx"@) {
        Ok(InputFormat::Ubx)
    } else if is_name(s, "rtcm"@) {
        Ok(InputFormat::Rtcm)
    } else if is_name(s, "rinex"@) {
        Ok(InputFormat::Rinex)
    } else if is_name(s, "obsj"@) {
        Ok(InputFormat::ObsJson)
    } else if is_name(s, "uncb"@) || is_name(s, "unca"@) {
        Err("Unicore input is not supported in this build"@)
    } else {
        Err("unsupported input format "@ + quoted_text(lowercase_text(s)))
    }
}

/// Parses the `--from` value.
pub fn parse_input(s: &str) -> (r: Result<InputFormat, String>)
    ensures
        match input_of(s@) {
            Ok(f) => r == Ok::<InputFormat, String>(f),
            Err(e) => r matches Err(m) && m@ == e,
        },
{
    if named(s, "raw") {
        Ok(InputFormat::Raw)
    } else if named(s, "ubx") {
        Ok(InputFormat::Ubx)
    } else if named(s, "rtcm") {
        Ok(InputFormat::Rtcm)
    } else if named(s, "rinex") {
        Ok(InputFormat::Rinex)
    } else if named(s, "obsj") {
        Ok(InputFormat::ObsJson)
    } else if named(s, "uncb") || named(s, "unca") {
        Err("Unicore input is not supported in this build".to_owned())
    } else {
        Err(with_quoted("unsupported input format ", lowercase(s).as_str()))
    }
}

/// The output format that an option names, or what is wrong with it.
pub open spec fn output_of(s: Seq<char>) -> Result<OutputFormat, Seq<char>> {
    if is_name(s, "rinex"@) {
        Ok(OutputFormat::Rinex)
    } else if is_name(s, "obsj"@) {
        Ok(OutputFormat::ObsJson)
    } else {
        Err("unsupported output format "@ + quoted_text(lowercase_text(s)))
    }
}

/// Parses the `--to` value.
pub fn parse_output(s: &str) -> (r: Result<OutputFormat, String>)
    ensures
        match output_of(s@) {
            Ok(f) => r == Ok::<OutputFormat, String>(f),
            Err(e) => r matches Err(m) && m@ == e,
        },
{
    if named(s, "rinex") {
        Ok(OutputFormat::Rinex)
    } else if named(s, "obsj") {
        Ok(OutputFormat::ObsJson)
    } else {
        Err(with_quoted("unsupported output format ", lowercase(s).as_str()))
    }
}

/// How the week is found, by the three options for it.
pub open spec fn mode_of(a: Arguments) -> WeekMode {
    if a.date@.len() > 0 {
        WeekMode::Date
    } else if a.recent {
        WeekMode::Recent
    } else if a.date_from_filename {
        WeekMode::Filename
    } else {
        WeekMode::Auto
    }
}

/// What is wrong with the options for the week, if anything is.
pub open spec fn week_error(a: Arguments, from: InputFormat) -> Option<Seq<char>> {
    let given = a.date@.len() > 0;
    if (given && a.recent) || (given && a.date_from_filename) || (a.recent
        && a.date_from_filename) {
        Some("--date, --recent, and --date-from-filename are mutually exclusive"@)
    } else if given && yyyymmdd(utf8(a.date@)) is Err {
        Some(yyyymmdd(utf8(a.date@))->Err_0)
    } else if a.packet_log && mode_of(a) != WeekMode::Auto {
        Some("--date, --recent, and --date-from-filename are not valid with --packet-log"@)
    } else if mode_of(a) != WeekMode::Auto && !from.has_rtcm() {
        Some("--date, --recent, and --date-from-filename are valid only with raw or RTCM input"@)
    } else {
        None
    }
}

/// Which options for one family of packets are given for another, if any are.
pub open spec fn family_error(a: Arguments, from: InputFormat) -> Option<Seq<char>> {
    if a.rtcm_strict_prr && !from.has_rtcm() {
        Some("--rtcm-strict-prr is valid only with raw or RTCM input"@)
    } else if a.rtcm_omit_zero_do && !from.has_rtcm() {
        Some("--rtcm-omit-zero-do is valid only with raw or RTCM input"@)
    } else if a.ubx_slip_threshold_given && !from.has_ubx() {
        Some("--ubx-slip-threshold is valid only with raw or UBX input"@)
    } else if a.unc_omit_do_without_cp && !(from is Raw) {
        Some("--unc-omit-do-without-cp is valid only with raw, UNCB, or UNCA input"@)
    } else if a.ubx_bds_geo_half_cycle && !from.has_ubx() {
        Some("--ubx-bds-geo-half-cycle is valid only with raw or UBX input"@)
    } else {
        None
    }
}

/// What is wrong with the decimation interval, if anything is.
pub open spec fn interval_error(a: Arguments) -> Option<Seq<char>> {
    match a.interval {
        None => Some("--interval must be a finite non-negative number of seconds"@),
        Some((ns, more)) => if !more {
            None
        } else if ns < 1_000_000_000 {
            Some("decimation interval must be at least 1 second"@)
        } else if ns as int % 100 != 0 {
            Some("decimation interval must be a multiple of 100ns"@)
        } else if DAY_NS as int % ns as int != 0 {
            Some("decimation interval must divide one GPS day exactly"@)
        } else {
            None
        },
    }
}

/// Whether one of the inputs is the standard input.
pub open spec fn reads_stdin(inputs: Seq<Seq<char>>) -> bool {
    exists|i: int| 0 <= i < inputs.len() && #[trigger] inputs[i] == "-"@
}

/// The slip threshold, where it is a number of one byte.
pub open spec fn threshold_of(a: Arguments) -> Option<int> {
    within(uint_text(utf8(a.ubx_slip_threshold@)), 0, 255)
}

/// What is wrong with the inputs and the backend, if anything is.
pub open spec fn input_options_error(
    a: Arguments,
    from: InputFormat,
    to: OutputFormat,
) -> Option<Seq<char>> {
    if a.inputs@.len() == 0 {
        Some("expected at least one input file"@)
    } else if mode_of(a) == WeekMode::Filename && reads_stdin(texts(a.inputs@)) {
        Some("--date-from-filename is not valid with stdin"@)
    } else if threshold_of(a) is None {
        Some("--ubx-slip-threshold must be a number 0-255"@)
    } else {
        match backend_of(a.rinex_backend@) {
            Err(e) => Some(e),
            Ok(b) => if b is Some && !(from is Rinex || to is Rinex) {
                Some("--rinex-backend is valid only with RINEX input or output"@)
            } else {
                None
            },
        }
    }
}

/// What is wrong with a command line: the first of its faults, if it has any.
pub open spec fn arguments_error(a: Arguments) -> Option<Seq<char>> {
    match (input_of(a.from@), output_of(a.to@)) {
        (Err(e), _) => Some(e),
        (_, Err(e)) => Some(e),
        (Ok(from), Ok(to)) => if a.packet_log && !from.is_packets() {
            Some("--packet-log is valid only with packet input formats"@)
        } else if week_error(a, from) is Some {
            week_error(a, from)
        } else if family_error(a, from) is Some {
            family_error(a, from)
        } else if interval_error(a) is Some {
            interval_error(a)
        } else {
            input_options_error(a, from, to)
        },
    }
}

/// The conversion that a command line without faults asks for.
pub open spec fn configured(a: Arguments, c: Config) -> bool {
    &&& input_of(a.from@) == Ok::<InputFormat, Seq<char>>(c.from)
    &&& output_of(a.to@) == Ok::<OutputFormat, Seq<char>>(c.to)
    &&& c.packet_log == a.packet_log
    &&& c.require_cp == a.ppp_ar
    &&& c.interval_ns == (a.interval->0).0
    &&& c.week_mode == mode_of(a)
    &&& c.week_date == (if a.date@.len() > 0 {
        yyyymmdd(utf8(a.date@))->Ok_0
    } else {
        Instant { secs: 0, nanos: 0 }
    })
    &&& c.inputs == a.inputs
    &&& c.output_path == a.output
    &&& backend_of(a.rinex_backend@) == Ok::<Option<RinexBackend>, Seq<char>>(c.rinex_backend)
    &&& c.rtcm_opts == (rtcm::Options {
        use_spec_phase_range_rate_sign: a.rtcm_strict_prr,
        omit_zero_do: a.rtcm_omit_zero_do,
    })
    &&& c.ubx_opts == (ubx::Options {
        slip_threshold: threshold_of(a)->0 as u8,
        bds_geo_half_cycle: a.ubx_bds_geo_half_cycle,
    })
}

fn check_week(a: &Arguments, from: InputFormat) -> (r: Result<(WeekMode, Instant), String>)
    ensures
        match week_error(*a, from) {
            Some(e) => r matches Err(m) && m@ == e,
            None => r matches Ok(x) && x.0 == mode_of(*a) && x.1 == (if a.date@.len() > 0 {
                yyyymmdd(utf8(a.date@))->Ok_0
            } else {
                Instant { secs: 0, nanos: 0 }
            }),
        },
{
    let given = !a.date.as_str().is_empty();
    if (given && a.recent) || (given && a.date_from_filename) || (a.recent
        && a.date_from_filename) {
        return Err(
            "--date, --recent, and --date-from-filename are mutually exclusive".to_owned(),
        );
    }
    let mut mode = WeekMode::Auto;
    let mut date = Instant { secs: 0, nanos: 0 };
    if given {
        match parse_yyyymmdd(a.date.as_str()) {
            Ok(d) => {
                date = d;
            },
            Err(e) => return Err(e),
        }
        mode = WeekMode::Date;
    } else if a.recent {
        mode = WeekMode::Recent;
    } else if a.date_from_filename {
        mode = WeekMode::Filename;
    }
    let auto = match mode {
        WeekMode::Auto => true,
        _ => false,
    };
    if a.packet_log && !auto {
        return Err(
            "--date, --recent, and --date-from-filename are not valid with --packet-log".to_owned(),
        );
    }
    if !auto && !from.may_use_rtcm() {
        return Err(
            "--date, --recent, and --date-from-filename are valid only with raw or RTCM input".to_owned(),
        );
    }
    Ok((mode, date))
}

fn check_family(a: &Arguments, from: InputFormat) -> (r: Option<String>)
    ensures
        match family_error(*a, from) {
            Some(e) => r matches Some(m) && m@ == e,
            None => r is None,
        },
{
    if a.rtcm_strict_prr && !from.may_use_rtcm() {
        return Some("--rtcm-strict-prr is valid only with raw or RTCM input".to_owned());
    }
    if a.rtcm_omit_zero_do && !from.may_use_rtcm() {
        return Some("--rtcm-omit-zero-do is valid only with raw or RTCM input".to_owned());
    }
    if a.ubx_slip_threshold_given && !from.may_use_ubx() {
        return Some("--ubx-slip-threshold is valid only with raw or UBX input".to_owned());
    }
    if a.unc_omit_do_without_cp && !matches!(from, InputFormat::Raw) {
        return Some(
            "--unc-omit-do-without-cp is valid only with raw, UNCB, or UNCA input".to_owned(),
        );
    }
    if a.ubx_bds_geo_half_cycle && !from.may_use_ubx() {
        return Some("--ubx-bds-geo-half-cycle is valid only with raw or UBX input".to_owned());
    }
    None
}

fn check_interval(a: &Arguments) -> (r: Result<i64, String>)
    ensures
        match interval_error(*a) {
            Some(e) => r matches Err(m) && m@ == e,
            None => r == Ok::<i64, String>((a.interval->0).0),
        },
{
    match a.interval {
        None => Err("--interval must be a finite non-negative number of seconds".to_owned()),
        Some((ns, more)) => if more {
            match decimation_interval_ticks(ns) {
                Ok(_) => Ok(ns),
                Err(e) => Err(e.to_string()),
            }
        } else {
            Ok(ns)
        },
    }
}

fn has_stdin(inputs: &Vec<String>) -> (r: bool)
    ensures
        r == reads_stdin(texts(inputs@)),
{
    let mut i: usize = 0;
    while i < inputs.len()
        invariant
            i <= inputs@.len(),
            forall|j: int| 0 <= j < i ==> #[trigger] texts(inputs@)[j] != "-"@,
        decreases inputs@.len() - i,
    {
        if crate::diff::same_text(inputs[i].as_str(), "-") {
            assert(texts(inputs@)[i as int] == "-"@);
            return true;
        }
        i += 1;
    }
    false
}

/// Checks the options of a command line and makes the conversion of them that
/// they ask for.
pub fn check_arguments(a: Arguments) -> (r: Result<Config, String>)
    ensures
        match arguments_error(a) {
            Some(e) => r matches Err(m) && m@ == e,
            None => r matches Ok(c) && configured(a, c),
        },
{
    let from = match parse_input(a.from.as_str()) {
        Ok(f) => f,
        Err(e) => return Err(e),
    };
    let to = match parse_output(a.to.as_str()) {
        Ok(f) => f,
        Err(e) => return Err(e),
    };
    if a.packet_log && !from.packet_input() {
        return Err("--packet-log is valid only with packet input formats".to_owned());
    }
    let (week_mode, week_date) = match check_week(&a, from) {
        Ok(x) => x,
        Err(e) => return Err(e),
    };
    if let Some(e) = check_family(&a, from) {
        return Err(e);
    }
    let interval_ns: i64 = match check_interval(&a) {
        Ok(ns) => ns,
        Err(e) => return Err(e),
    };
    if a.inputs.len() == 0 {
        return Err("expected at least one input file".to_owned());
    }
    let by_name = match week_mode {
        WeekMode::Filename => true,
        _ => false,
    };
    if by_name && has_stdin(&a.inputs) {
        return Err("--date-from-filename is not valid with stdin".to_owned());
    }
    let slip_threshold: u8 = match parse_uint(a.ubx_slip_threshold.as_str().as_bytes(), 255) {
        Some(n) => n as u8,
        None => return Err("--ubx-slip-threshold must be a number 0-255".to_owned()),
    };
    let rinex_backend = match parse_backend(a.rinex_backend.as_str()) {
        Ok(b) => b,
        Err(e) => return Err(e),
    };
    let touches_rinex = matches!(from, InputFormat::Rinex) || matches!(to, OutputFormat::Rinex);
    if rinex_backend.is_some() && !touches_rinex {
        return Err("--rinex-backend is valid only with RINEX input or output".to_owned());
    }
    Ok(
        Config {
            from,
            to,
            packet_log: a.packet_log,
            require_cp: a.ppp_ar,
            interval_ns,
            week_mode,
            week_date,
            inputs: a.inputs,
            output_path: a.output,
            rinex_backend,
            rtcm_opts: rtcm::Options {
                use_spec_phase_range_rate_sign: a.rtcm_strict_prr,
                omit_zero_do: a.rtcm_omit_zero_do,
            },
            ubx_opts: ubx::Options {
                slip_threshold,
                bds_geo_half_cycle: a.ubx_bds_geo_half_cycle,
            },
        },
    )
}

/// An error with the input it is about in front.
pub open spec fn about_input(path: Seq<char>, err: Seq<char>) -> Seq<char> {
    if path.len() == 0 {
        err
    } else if path == "-"@ {
        "stdin: "@ + err
    } else {
        path + ": "@ + err
    }
}

/// An error with the input it is about in front.
pub fn input_error(path: &str, err: &str) -> (r: String)
    ensures
        r@ == about_input(path@, err@),
{
    if path.is_empty() {
        err.to_owned()
    } else if crate::diff::same_text(path, "-") {
        "stdin: ".to_owned().concat(err)
    } else {
        path.to_owned().concat(": ").concat(err)
    }
}

/// Whether an input whose first bytes are given is compressed: gzip is told by its two
/// magic bytes, never by a name.
pub fn is_gzip(head: &[u8]) -> (r: bool)
    ensures
        r == (head@.len() >= 2 && head@[0] == 0x1f && head@[1] == 0x8b),
{
    head.len() >= 2 && head[0] == 0x1f && head[1] == 0x8b
}

// ---- header facts ----

/// The name of a user, of which no more than twenty bytes are kept.
pub open spec fn short_name(user: Seq<char>) -> Seq<char> {
    if utf8(user).len() > 20 {
        lossy_text(cut(utf8(user), 20))
    } else {
        user
    }
}

/// A record with what is not set filled in: the version, the program, the user,
/// the date, and the decimation interval, where there is one.
pub open spec fn with_defaults<F>(
    m: MetadataView<F>,
    now: Instant,
    user: Seq<char>,
    interval: Option<F>,
) -> MetadataView<F> {
    MetadataView {
        version: text_or("3.04"@, m.version),
        run: MetadataRunView {
            program: text_or("convobs"@, m.run.program),
            by: text_or(short_name(user), m.run.by),
            date: match m.run.date {
                Some(d) => Some(d),
                None => Some(now),
            },
        },
        interval: match m.interval {
            Some(x) => Some(x),
            None => interval,
        },
        ..m
    }
}

/// Fills in what is not set.
pub fn set_metadata_defaults<F: Copy>(
    meta: &mut Metadata<F>,
    now: Instant,
    user: &str,
    interval: Option<F>,
)
    ensures
        final(meta)@ == with_defaults(old(meta)@, now, user@, interval),
{
    if meta.version.as_str().is_empty() {
        meta.version = "3.04".to_owned();
    }
    if meta.run.program.as_str().is_empty() {
        meta.run.program = "convobs".to_owned();
    }
    if meta.run.by.as_str().is_empty() {
        let b = user.as_bytes();
        if b.len() > 20 {
            meta.run.by = text_of(cut_bytes(b, 20));
        } else {
            meta.run.by = user.to_owned();
        }
    }
    if meta.run.date.is_none() {
        meta.run.date = Some(now);
    }
    if meta.interval.is_none() {
        meta.interval = interval;
    }
    assert(meta@ =~~= with_defaults(old(meta)@, now, user@, interval));
}

/// The header facts that options give.
pub struct MetadataFlags<F> {
    pub rinex_version: Option<String>,
    pub program: Option<String>,
    pub run_by: Option<String>,
    pub antenna: Option<String>,
    /// The position; an empty one removes what is set.
    pub approx_pos: Option<Option<[F; 3]>>,
    pub comment: Option<Vec<String>>,
}

/// A text that is replaced where another is given.
pub open spec fn replaced(a: Seq<char>, b: Option<String>) -> Seq<char> {
    match b {
        Some(s) => s@,
        None => a,
    }
}

/// A record with what options give in place of what it says.
pub open spec fn with_flags<F>(m: MetadataView<F>, f: MetadataFlags<F>) -> MetadataView<F> {
    MetadataView {
        version: replaced(m.version, f.rinex_version),
        run: MetadataRunView {
            program: replaced(m.run.program, f.program),
            by: replaced(m.run.by, f.run_by),
            ..m.run
        },
        antenna: AntennaView { type_: replaced(m.antenna.type_, f.antenna), ..m.antenna },
        approx_position: match f.approx_pos {
            Some(p) => p,
            None => m.approx_position,
        },
        comment: match f.comment {
            Some(v) => texts(v@),
            None => m.comment,
        },
        ..m
    }
}

/// Applies the header facts that options give.
pub fn apply_metadata_flags<F>(meta: &mut Metadata<F>, f: MetadataFlags<F>)
    ensures
        final(meta)@ == with_flags(old(meta)@, f),
{
    if let Some(x) = f.rinex_version {
        meta.version = x;
    }
    if let Some(x) = f.program {
        meta.run.program = x;
    }
    if let Some(x) = f.run_by {
        meta.run.by = x;
    }
    if let Some(x) = f.antenna {
        meta.antenna.type_ = x;
    }
    if let Some(x) = f.approx_pos {
        meta.approx_position = x;
    }
    if let Some(x) = f.comment {
        meta.comment = x;
    }
    assert(meta@ =~~= with_flags(old(meta)@, f));
}

/// Where the parts of a text between commas begin and end, from `from` on.
pub open spec fn comma_parts(s: Seq<u8>, from: int) -> Seq<(int, int)>
    decreases s.len() - from,
{
    let n = first_index(s.skip(from), 0x2c);
    if from < 0 || from > s.len() || from + n >= s.len() {
        seq![(from, s.len() as int)]
    } else {
        proof {
            crate::text::lemma_first_index(s.skip(from), 0x2c);
        }
        seq![(from, from + n)] + comma_parts(s, from + n + 1)
    }
}

/// The place of a number between commas, without the whitespace around it.
pub open spec fn part_reading(s: Seq<u8>, part: (int, int)) -> Reading {
    crate::rinex_read::reading(
        part.0,
        crate::columns::trim_range(s.subrange(part.0, part.1)),
    )
}

/// Whether a part of a text is a number.
pub open spec fn part_is_number(s: Seq<u8>, part: (int, int)) -> bool {
    is_float_text(trimmed(s.subrange(part.0, part.1)))
}

/// What is said of a part that is no number.
pub open spec fn part_error(opt: Seq<char>, s: Seq<u8>, part: (int, int)) -> Seq<char> {
    opt + " contains invalid number "@ + quoted_text(lossy_text(s.subrange(part.0, part.1)))
}

/// The places of three numbers between commas, or what is wrong.
pub open spec fn xyz(s: Seq<u8>, opt: Seq<char>) -> Result<[Reading; 3], Seq<char>> {
    let p = comma_parts(s, 0);
    if p.len() != 3 {
        Err(opt + " must contain three comma-separated numbers"@)
    } else if !part_is_number(s, p[0]) {
        Err(part_error(opt, s, p[0]))
    } else if !part_is_number(s, p[1]) {
        Err(part_error(opt, s, p[1]))
    } else if !part_is_number(s, p[2]) {
        Err(part_error(opt, s, p[2]))
    } else {
        Ok([part_reading(s, p[0]), part_reading(s, p[1]), part_reading(s, p[2])])
    }
}

fn split_commas(s: &[u8]) -> (r: Vec<(usize, usize)>)
    ensures
        crate::columns::as_ranges(r@) == comma_parts(s@, 0),
        forall|i: int| 0 <= i < r@.len() ==> (#[trigger] r@[i]).0 <= r@[i].1 <= s@.len(),
{
    let mut out: Vec<(usize, usize)> = Vec::new();
    let mut from: usize = 0;
    assert(crate::columns::as_ranges(out@) + comma_parts(s@, 0) =~= comma_parts(s@, 0));
    loop
        invariant_except_break
            from <= s@.len(),
            crate::columns::as_ranges(out@) + comma_parts(s@, from as int) == comma_parts(s@, 0),
            forall|i: int| 0 <= i < out@.len() ==> (#[trigger] out@[i]).0 <= out@[i].1 <= s@.len(),
        ensures
            crate::columns::as_ranges(out@) == comma_parts(s@, 0),
            forall|i: int| 0 <= i < out@.len() ==> (#[trigger] out@[i]).0 <= out@[i].1 <= s@.len(),
        decreases s@.len() - from,
    {
        let rest = slice_subrange(s, from, s.len());
        assert(rest@ =~= s@.skip(from as int));
        let n: usize = find_byte(rest, 0x2c);
        let ghost before = out@;
        let end: usize = from + n;
        out.push((from, end));
        assert(crate::columns::as_ranges(out@) =~= crate::columns::as_ranges(before).push(
            (from as int, end as int),
        ));
        if end >= s.len() {
            assert(crate::columns::as_ranges(out@) =~= comma_parts(s@, 0));
            break;
        }
        assert(crate::columns::as_ranges(out@) + comma_parts(s@, end + 1)
            =~= crate::columns::as_ranges(before) + (seq![(from as int, end as int)] + comma_parts(
            s@,
            end + 1,
        )));
        from = end + 1;
    }
    out
}

fn part_number(s: &[u8], part: (usize, usize), opt: &str) -> (r: Result<Reading, String>)
    requires
        part.0 <= part.1 <= s@.len(),
    ensures
        ({
            let p = (part.0 as int, part.1 as int);
            if part_is_number(s@, p) {
                r == Ok::<Reading, String>(part_reading(s@, p))
            } else {
                r matches Err(m) && m@ == part_error(opt@, s@, p)
            }
        }),
{
    let text = slice_subrange(s, part.0, part.1);
    let (a, b) = crate::columns::find_trimmed(text);
    if is_float(slice_subrange(text, a, b)) {
        let total: usize = s.len();
        assert(part.0 + b <= total);
        Ok(Reading::Text(part.0 + a, part.0 + b))
    } else {
        let what = opt.to_owned().concat(" contains invalid number ");
        Err(with_quoted(what.as_str(), text_of(text).as_str()))
    }
}

/// Reads three numbers between commas.
pub fn parse_xyz(s: &str, opt: &str) -> (r: Result<[Reading; 3], String>)
    ensures
        match xyz(utf8(s@), opt@) {
            Ok(v) => r == Ok::<[Reading; 3], String>(v),
            Err(e) => r matches Err(m) && m@ == e,
        },
{
    let b = s.as_bytes();
    let parts = split_commas(b);
    let ghost p = comma_parts(b@, 0);
    assert(crate::columns::as_ranges(parts@).len() == parts@.len());
    if parts.len() != 3 {
        return Err(opt.to_owned().concat(" must contain three comma-separated numbers"));
    }
    proof {
        assert(p[0] == (parts@[0].0 as int, parts@[0].1 as int));
        assert(p[1] == (parts@[1].0 as int, parts@[1].1 as int));
        assert(p[2] == (parts@[2].0 as int, parts@[2].1 as int));
    }
    let x = match part_number(b, parts[0], opt) {
        Ok(v) => v,
        Err(e) => return Err(e),
    };
    let y = match part_number(b, parts[1], opt) {
        Ok(v) => v,
        Err(e) => return Err(e),
    };
    let z = match part_number(b, parts[2], opt) {
        Ok(v) => v,
        Err(e) => return Err(e),
    };
    Ok([x, y, z])
}

// ---- header files ----

/// The lines of a text from `pos` on: a line ends at a newline, with an optional
/// carriage return in front of it, or at the end of the text.
pub open spec fn lines_of(s: Seq<u8>, pos: int) -> Seq<Seq<u8>>
    decreases s.len() - pos,
{
    if pos < 0 || pos >= s.len() {
        Seq::empty()
    } else {
        let n = first_index(s.skip(pos), 0x0a);
        let end = pos + n;
        proof {
            crate::text::lemma_first_index(s.skip(pos), 0x0a);
        }
        if end >= s.len() {
            seq![s.skip(pos)]
        } else {
            let line = s.subrange(pos, end);
            seq![
                if line.len() > 0 && line.last() == 0x0d {
                    line.drop_last()
                } else {
                    line
                },
            ] + lines_of(s, end + 1)
        }
    }
}

/// The texts of byte strings.
pub open spec fn line_texts(v: Seq<Seq<u8>>) -> Seq<Seq<char>> {
    v.map_values(|b: Seq<u8>| lossy_text(b))
}

/// Splits a text into its lines.
pub fn split_lines(s: &str) -> (r: Vec<String>)
    ensures
        texts(r@) == line_texts(lines_of(utf8(s@), 0)),
{
    let b = s.as_bytes();
    let ghost all = lines_of(b@, 0);
    let ghost mut done: Seq<Seq<u8>> = Seq::empty();
    let mut out: Vec<String> = Vec::new();
    let mut pos: usize = 0;
    assert(texts(out@) =~= line_texts(done));
    assert(done + all =~= all);
    while pos < b.len()
        invariant
            pos <= b@.len(),
            b@ == utf8(s@),
            all == lines_of(b@, 0),
            texts(out@) == line_texts(done),
            done + lines_of(b@, pos as int) == all,
        decreases b@.len() - pos,
    {
        let rest = slice_subrange(b, pos, b.len());
        assert(rest@ =~= b@.skip(pos as int));
        let n: usize = find_byte(rest, 0x0a);
        let end: usize = pos + n;
        let ghost (out0, done0) = (out@, done);
        if end >= b.len() {
            out.push(text_of(rest));
            proof {
                done = done.push(rest@);
                assert(texts(out@) =~= texts(out0).push(lossy_text(rest@)));
                assert(line_texts(done) =~= line_texts(done0).push(lossy_text(rest@)));
                assert(done =~= done0 + seq![b@.skip(pos as int)]);
                assert(done + lines_of(b@, b@.len() as int) =~= all);
            }
            pos = b.len();
        } else {
            let mut stop: usize = end;
            if stop > pos && b[stop - 1] == 0x0d {
                stop -= 1;
            }
            let line = slice_subrange(b, pos, stop);
            out.push(text_of(line));
            proof {
                let whole = b@.subrange(pos as int, end as int);
                assert(whole.len() > 0 ==> whole.last() == b@[end - 1]);
                assert(line@ =~= (if whole.len() > 0 && whole.last() == 0x0d {
                    whole.drop_last()
                } else {
                    whole
                }));
                done = done.push(line@);
                assert(texts(out@) =~= texts(out0).push(lossy_text(line@)));
                assert(line_texts(done) =~= line_texts(done0).push(lossy_text(line@)));
                assert(done + lines_of(b@, end + 1) =~= done0 + (seq![line@] + lines_of(
                    b@,
                    end + 1,
                )));
            }
            pos = end + 1;
        }
    }
    assert(done + lines_of(b@, pos as int) =~= done);
    out
}

/// A date and time of day of a header file.
#[derive(Clone, Copy, Debug)]
pub struct HeaderDate {
    /// Year, month and day.
    pub date: Option<(u16, u8, u8)>,
    /// Hour, minute, second and nanosecond; midnight where there is none.
    pub time: Option<(u8, u8, u8, u32)>,
}

/// The civil time of a header file's date.
pub open spec fn header_civil(d: HeaderDate) -> Option<Civil> {
    match d.date {
        None => None,
        Some((year, month, day)) => {
            let (hour, minute, second, nanos) = match d.time {
                Some(t) => t,
                None => (0u8, 0u8, 0u8, 0u32),
            };
            Some(
                Civil {
                    year: year as i64,
                    month: month as u32,
                    day: day as u32,
                    hour: hour as u32,
                    minute: minute as u32,
                    second: second as u32,
                    nanos,
                },
            )
        },
    }
}

/// The instant of a header file's date, where it has a date.
pub open spec fn header_instant(d: Option<HeaderDate>) -> Option<Instant> {
    match d {
        Some(x) => match header_civil(x) {
            Some(c) if c.unix_fits() => Some(
                Instant { secs: c.unix() as i64, nanos: c.nanos },
            ),
            _ => None,
        },
        None => None,
    }
}

/// The instant of a header file's date.
pub fn header_date_to_instant(d: Option<HeaderDate>) -> (r: Option<Instant>)
    ensures
        r == header_instant(d),
{
    let x = match d {
        Some(x) => x,
        None => return None,
    };
    let (year, month, day) = match x.date {
        Some(v) => v,
        None => return None,
    };
    let (hour, minute, second, nanos) = match x.time {
        Some(t) => t,
        None => (0u8, 0u8, 0u8, 0u32),
    };
    let c = Civil {
        year: year as i64,
        month: month as u32,
        day: day as u32,
        hour: hour as u32,
        minute: minute as u32,
        second: second as u32,
        nanos,
    };
    if !c.fits_unix() {
        return None;
    }
    Some(Instant::from_civil(c))
}

/// The comments of a header file: one text of several lines, or a list.
pub enum HeaderComment {
    One(String),
    Many(Vec<String>),
}

/// The run of a header file.
pub struct HeaderRun {
    pub program: Option<String>,
    pub by: Option<String>,
    pub date: Option<HeaderDate>,
}

/// A header file.
pub struct HeaderFile<F> {
    pub version: Option<String>,
    pub run: Option<HeaderRun>,
    pub comment: Option<HeaderComment>,
    /// Name, number and type.
    pub marker: Option<(Option<String>, Option<String>, Option<String>)>,
    pub observer: Option<String>,
    pub agency: Option<String>,
    /// Number, type and version.
    pub receiver: Option<(Option<String>, Option<String>, Option<String>)>,
    /// Number and type.
    pub antenna: Option<(Option<String>, Option<String>)>,
    pub approx_position: Option<[F; 3]>,
    pub antenna_delta: Option<[F; 3]>,
    pub interval: Option<F>,
    pub leap_seconds: Option<i16>,
}

/// The text of an optional string, empty for none.
pub open spec fn option_text(s: Option<String>) -> Seq<char> {
    replaced(Seq::empty(), s)
}

/// The facts that a header file gives.
pub open spec fn header_facts<F>(h: HeaderFile<F>) -> MetadataView<F> {
    let none = no_metadata::<F>();
    MetadataView {
        version: option_text(h.version),
        run: match h.run {
            Some(r) => MetadataRunView {
                program: option_text(r.program),
                by: option_text(r.by),
                date: header_instant(r.date),
            },
            None => none.run,
        },
        comment: match h.comment {
            Some(HeaderComment::One(s)) => line_texts(lines_of(utf8(s@), 0)),
            Some(HeaderComment::Many(v)) => texts(v@),
            None => Seq::empty(),
        },
        marker: match h.marker {
            Some((name, number, type_)) => MarkerView {
                name: option_text(name),
                number: option_text(number),
                type_: option_text(type_),
            },
            None => none.marker,
        },
        observer: option_text(h.observer),
        agency: option_text(h.agency),
        receiver: match h.receiver {
            Some((number, type_, version)) => ReceiverView {
                number: option_text(number),
                type_: option_text(type_),
                version: option_text(version),
            },
            None => none.receiver,
        },
        antenna: match h.antenna {
            Some((number, type_)) => AntennaView {
                number: option_text(number),
                type_: option_text(type_),
            },
            None => none.antenna,
        },
        approx_position: h.approx_position,
        antenna_delta: h.antenna_delta,
        interval: h.interval,
        leap_seconds: h.leap_seconds,
    }
}

fn text_or_empty(s: Option<String>) -> (r: String)
    ensures
        r@ == option_text(s),
{
    match s {
        Some(x) => x,
        None => {
            let r = String::new();
            assert(r@ =~= Seq::empty());
            r
        },
    }
}

/// Makes a metadata record of a header file.
pub fn read_header_file<F>(h: HeaderFile<F>) -> (r: Metadata<F>)
    ensures
        r@ == header_facts(h),
{
    let mut meta: Metadata<F> = Metadata::default();
    meta.version = text_or_empty(h.version);
    if let Some(c) = h.comment {
        meta.comment =
        match c {
            HeaderComment::One(s) => split_lines(s.as_str()),
            HeaderComment::Many(v) => v,
        };
    }
    meta.observer = text_or_empty(h.observer);
    meta.agency = text_or_empty(h.agency);
    meta.approx_position = h.approx_position;
    meta.antenna_delta = h.antenna_delta;
    meta.interval = h.interval;
    meta.leap_seconds = h.leap_seconds;
    if let Some(run) = h.run {
        meta.run =
        MetadataRun {
            program: text_or_empty(run.program),
            by: text_or_empty(run.by),
            date: header_date_to_instant(run.date),
        };
    }
    if let Some((name, number, type_)) = h.marker {
        meta.marker =
        Marker {
            name: text_or_empty(name),
            number: text_or_empty(number),
            type_: text_or_empty(type_),
        };
    }
    if let Some((number, type_, version)) = h.receiver {
        meta.receiver =
        Receiver {
            number: text_or_empty(number),
            type_: text_or_empty(type_),
            version: text_or_empty(version),
        };
    }
    if let Some((number, type_)) = h.antenna {
        meta.antenna = Antenna { number: text_or_empty(number), type_: text_or_empty(type_) };
    }
    assert(meta@ =~~= header_facts(h));
    meta
}

} // verus!
