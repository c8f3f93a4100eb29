//! Which week an RTCM epoch may lie in: constraints from the clock, a date, a
//! file name or a logged timestamp.

use crate::calendar::is_date;
use crate::columns::{digit_run, lemma_digits_bound};
use crate::obs::{Civil, Instant, EPOCH_UNIX};
use crate::rtcm::TimeInterval;
use crate::text::{
    all_digits, digits_value, int_text, is_digit, parse_digits, quoted_text, uint_text, utf8,
    with_quoted,
};
use vstd::prelude::*;
use vstd::slice::slice_subrange;

verus! {

pub const SECOND_NS: i64 = 1_000_000_000;

pub const WEEK_SECS: i64 = 604_800;

/// How far east of Greenwich a day begins, in seconds.
pub const DAY_LEAD_SECS: i64 = 50_400;

/// How long a day lasts, taken over the whole Earth, in nanoseconds.
pub const DAY_SPAN_NS: i64 = 180_000_000_000_000;

/// How the week of an RTCM stream is found.
#[derive(Clone, Copy, Debug, PartialEq, Eq, Structural)]
pub enum WeekMode {
    Auto,
    Recent,
    Date,
    Filename,
}

/// The interval that an epoch has to lie in, what is said where it does not, and
/// what may be wrong with the inference itself.
pub struct WeekConstraint {
    pub interval: TimeInterval,
    pub errf: &'static str,
    pub err: Option<String>,
}

// ---- dates ----

/// Midnight of a day.
pub open spec fn midnight(year: int, month: int, day: int) -> Civil {
    Civil {
        year: year as i64,
        month: month as u32,
        day: day as u32,
        hour: 0,
        minute: 0,
        second: 0,
        nanos: 0,
    }
}

/// The instant at which a day begins.
pub fn date_instant(year: i64, month: u32, day: u32) -> (r: Instant)
    requires
        midnight(year as int, month as int, day as int).unix_fits(),
    ensures
        r.secs == midnight(year as int, month as int, day as int).unix(),
        r.nanos == 0,
{
    Instant::from_civil(Civil { year, month, day, hour: 0, minute: 0, second: 0, nanos: 0 })
}

/// Whether a date is a day of the calendar.
pub fn valid_date(year: i64, month: u32, day: u32) -> (r: bool)
    ensures
        r == is_date(year as int, month as int, day as int),
{
    let c = Civil { year, month, day, hour: 0, minute: 0, second: 0, nanos: 0 };
    c.is_valid()
}

/// The instant of a date in the form `YYYYMMDD`, or what is wrong with it.
pub open spec fn yyyymmdd(s: Seq<u8>) -> Result<Instant, Seq<char>> {
    let y = int_text(s.subrange(0, 4));
    let m = uint_text(s.subrange(4, 6));
    let d = uint_text(s.subrange(6, 8));
    if s.len() != 8 {
        Err("--date must be in YYYYMMDD format"@)
    } else if y is Some && m is Some && d is Some && is_date(y->0, m->0, d->0) {
        Ok(Instant { secs: midnight(y->0, m->0, d->0).unix() as i64, nanos: 0 })
    } else {
        Err("--date must be a valid YYYYMMDD date"@)
    }
}

/// Reads a date in the form `YYYYMMDD`.
pub fn parse_yyyymmdd(s: &str) -> (r: Result<Instant, String>)
    ensures
        match yyyymmdd(utf8(s@)) {
            Ok(d) => r == Ok::<Instant, String>(d),
            Err(e) => r matches Err(m) && m@ == e,
        },
{
    let b = s.as_bytes();
    if b.len() != 8 {
        return Err("--date must be in YYYYMMDD format".to_owned());
    }
    match (
        crate::rinex_read::sub_i64(b, 0, 4),
        crate::rinex_read::sub_u32(b, 4, 6),
        crate::rinex_read::sub_u32(b, 6, 8),
    ) {
        (Some(year), Some(month), Some(day)) => {
            if !valid_date(year, month, day) {
                return Err("--date must be a valid YYYYMMDD date".to_owned());
            }
            proof {
                crate::rinex_read::lemma_near_fits(
                    midnight(year as int, month as int, day as int),
                );
            }
            Ok(date_instant(year, month, day))
        },
        _ => Err("--date must be a valid YYYYMMDD date".to_owned()),
    }
}

// ---- constraints ----

/// Whether the nanoseconds of the GPS epoch can be counted at an instant some
/// seconds before another.
pub open spec fn reaches_back(t: Instant, secs: int) -> bool {
    &&& i64::MIN <= t.secs - secs
    &&& i64::MIN <= (t.secs - secs - EPOCH_UNIX) * SECOND_NS
    &&& (t.secs - secs - EPOCH_UNIX) * SECOND_NS + t.nanos <= i64::MAX
}

/// The interval of `dur_ns` that begins `secs` before an instant.
pub open spec fn interval_before(t: Instant, secs: int, dur_ns: int) -> TimeInterval {
    TimeInterval {
        start_ns: ((t.secs - secs - EPOCH_UNIX) * SECOND_NS + t.nanos) as i64,
        dur_ns: dur_ns as i64,
    }
}

/// Whether the nanoseconds of the GPS epoch can be counted at an instant some
/// seconds before another.
pub fn can_reach_back(t: Instant, secs: i64) -> (r: bool)
    requires
        0 <= secs <= WEEK_SECS,
    ensures
        r == reaches_back(t, secs as int),
{
    let start: i128 = t.secs as i128 - secs as i128;
    let ns: i128 = (start - EPOCH_UNIX as i128) * 1_000_000_000;
    -0x8000_0000_0000_0000 <= start && -0x8000_0000_0000_0000 <= ns && ns + t.nanos as i128
        <= 0x7fff_ffff_ffff_ffff
}

fn start_before(t: Instant, secs: i64, dur_ns: i64) -> (r: TimeInterval)
    requires
        0 <= secs <= WEEK_SECS,
        reaches_back(t, secs as int),
    ensures
        r == interval_before(t, secs as int, dur_ns as int),
{
    let start = Instant { secs: t.secs - secs, nanos: t.nanos };
    TimeInterval { start_ns: start.gps_nanos(), dur_ns }
}

/// The week before the present.
pub fn recent_week_constraint(now: Instant) -> (r: WeekConstraint)
    requires
        reaches_back(now, WEEK_SECS as int),
    ensures
        r.interval == interval_before(now, WEEK_SECS as int, WEEK_SECS * SECOND_NS),
        r.errf@ == "RTCM epoch does not match recent week inference: "@,
        r.err is None,
{
    WeekConstraint {
        interval: start_before(now, WEEK_SECS, WEEK_SECS * SECOND_NS),
        errf: "RTCM epoch does not match recent week inference: ",
        err: None,
    }
}

/// What is said where an epoch does not lie in the day that was given, or that
/// the file name gives.
pub open spec fn date_complaint(filename: bool) -> Seq<char> {
    if filename {
        "RTCM epoch does not match --date-from-filename: "@
    } else {
        "RTCM epoch does not match --date: "@
    }
}

/// A civil day, wherever on Earth it is: from 14 hours before it begins in UTC,
/// for 50 hours.
pub fn date_week_constraint(date: Instant, filename: bool) -> (r: WeekConstraint)
    requires
        reaches_back(date, DAY_LEAD_SECS as int),
    ensures
        r.interval == interval_before(date, DAY_LEAD_SECS as int, DAY_SPAN_NS as int),
        r.errf@ == date_complaint(filename),
        r.err is None,
{
    WeekConstraint {
        interval: start_before(date, DAY_LEAD_SECS, DAY_SPAN_NS),
        errf: if filename {
            "RTCM epoch does not match --date-from-filename: "
        } else {
            "RTCM epoch does not match --date: "
        },
        err: None,
    }
}

/// What is said of a file that is too old for the week before the present.
pub open spec fn old_file_error() -> Seq<char> {
    "RTCM input is older than one week; provide --date, --recent, or --date-from-filename"@
}

/// Whether a file was last modified before the week before the present.
pub open spec fn is_old(now: Instant, modtime: Option<Instant>) -> bool {
    modtime matches Some(t) && t.secs < now.secs - WEEK_SECS
}

/// The week before the present, with an objection where the file is older.
pub fn automatic_week_constraint(now: Instant, modtime: Option<Instant>) -> (r: WeekConstraint)
    requires
        reaches_back(now, WEEK_SECS as int),
    ensures
        r.interval == interval_before(now, WEEK_SECS as int, WEEK_SECS * SECOND_NS),
        r.errf@ == "RTCM epoch does not match recent week inference: "@,
        is_old(now, modtime) ==> (r.err matches Some(e) && e@ == old_file_error()),
        !is_old(now, modtime) ==> r.err is None,
{
    let mut wc = recent_week_constraint(now);
    if let Some(mt) = modtime {
        if mt.secs < now.secs - WEEK_SECS {
            wc.err = Some(
                "RTCM input is older than one week; provide --date, --recent, or --date-from-filename".to_owned(),
            );
        }
    }
    wc
}

/// From a minute before a logged packet to a minute after it.
pub fn packet_log_week_constraint(t: Instant) -> (r: TimeInterval)
    requires
        reaches_back(t, 60),
    ensures
        r == interval_before(t, 60, 2 * 60 * SECOND_NS),
{
    start_before(t, 60, 2 * 60 * SECOND_NS)
}

// ---- file names ----

/// The maximal runs of digits in a text, in order.
pub open spec fn runs_of(s: Seq<u8>) -> Seq<Seq<u8>>
    decreases s.len(),
{
    if s.len() == 0 {
        Seq::empty()
    } else if !is_digit(s[0]) {
        runs_of(s.skip(1))
    } else {
        let n = digit_run(s);
        proof {
            lemma_run(s);
        }
        seq![s.take(n)] + runs_of(s.skip(n))
    }
}

pub proof fn lemma_run(s: Seq<u8>)
    ensures
        0 <= digit_run(s) <= s.len(),
        s.len() > 0 && is_digit(s[0]) ==> digit_run(s) > 0,
        all_digits(s.take(digit_run(s))),
    decreases s.len(),
{
    if s.len() > 0 && is_digit(s[0]) {
        lemma_run(s.skip(1));
        let n = digit_run(s);
        assert forall|i: int| 0 <= i < n implies is_digit(#[trigger] s.take(n)[i]) by {
            if i > 0 {
                assert(s.take(n)[i] == s.skip(1).take(n - 1)[i - 1]);
            }
        }
    }
}

/// Finds the maximal runs of digits in a text.
pub fn digit_runs(s: &[u8]) -> (r: Vec<&[u8]>)
    ensures
        crate::text::contents(r@) == runs_of(s@),
        forall|i: int| 0 <= i < r@.len() ==> all_digits((#[trigger] r@[i])@),
{
    let mut out: Vec<&[u8]> = Vec::new();
    let mut i: usize = 0;
    assert(s@.skip(0) =~= s@);
    assert(crate::text::contents(out@) + runs_of(s@) =~= runs_of(s@));
    while i < s.len()
        invariant
            i <= s@.len(),
            crate::text::contents(out@) + runs_of(s@.skip(i as int)) == runs_of(s@),
            forall|j: int| 0 <= j < out@.len() ==> all_digits((#[trigger] out@[j])@),
        decreases s@.len() - i,
    {
        let ghost rest = s@.skip(i as int);
        assert(rest[0] == s@[i as int]);
        if s[i] < 0x30 || s[i] > 0x39 {
            assert(rest.skip(1) =~= s@.skip(i + 1));
            i += 1;
        } else {
            let n: usize = crate::columns::count_digits(s, i);
            proof {
                lemma_run(rest);
            }
            let ghost before = out@;
            let run = slice_subrange(s, i, i + n);
            assert(run@ =~= rest.take(n as int));
            out.push(run);
            assert(crate::text::contents(out@) =~= crate::text::contents(before).push(run@));
            assert(rest.skip(n as int) =~= s@.skip(i + n));
            assert(crate::text::contents(out@) + runs_of(s@.skip(i + n)) =~= crate::text::contents(
                before,
            ) + (seq![run@] + runs_of(s@.skip(i + n))));
            i += n;
        }
    }
    assert(crate::text::contents(out@) =~= runs_of(s@));
    out
}

/// The date that a run of at least eight digits begins with.
pub open spec fn run_date(run: Seq<u8>) -> (int, int, int) {
    (
        digits_value(run.subrange(0, 4)),
        digits_value(run.subrange(4, 6)),
        digits_value(run.subrange(6, 8)),
    )
}

/// The different dates in runs of digits, in order.
pub open spec fn dates_of(runs: Seq<Seq<u8>>) -> Seq<(int, int, int)>
    decreases runs.len(),
{
    if runs.len() == 0 {
        Seq::empty()
    } else {
        let before = dates_of(runs.drop_last());
        let d = run_date(runs.last());
        if runs.last().len() >= 8 && is_date(d.0, d.1, d.2) && !before.contains(d) {
            before.push(d)
        } else {
            before
        }
    }
}

/// The date in a file name, or what is wrong with it.
pub open spec fn filename_date(base: Seq<u8>, path: Seq<char>) -> Result<Instant, Seq<char>> {
    let dates = dates_of(runs_of(base));
    if dates.len() == 0 {
        Err("no date found in filename "@ + quoted_text(path))
    } else if dates.len() == 1 {
        let (y, m, d) = dates[0];
        Ok(Instant { secs: midnight(y, m, d).unix() as i64, nanos: 0 })
    } else {
        Err("multiple conflicting dates found in filename "@ + quoted_text(path))
    }
}

/// A date as numbers of any size.
pub open spec fn as_dates(v: Seq<(i64, u32, u32)>) -> Seq<(int, int, int)> {
    v.map_values(|d: (i64, u32, u32)| (d.0 as int, d.1 as int, d.2 as int))
}

fn digits_at(run: &[u8], a: usize, b: usize) -> (r: u32)
    requires
        a < b <= run@.len(),
        b - a <= 4,
        all_digits(run@),
    ensures
        r == digits_value(run@.subrange(a as int, b as int)),
        r <= 9999,
{
    let part = slice_subrange(run, a, b);
    proof {
        assert(all_digits(part@));
        lemma_digits_bound(part@);
    }
    match parse_digits(part, 9999) {
        Some(n) => n as u32,
        None => 0,
    }
}

fn has_date(dates: &Vec<(i64, u32, u32)>, y: i64, m: u32, d: u32) -> (r: bool)
    ensures
        r == as_dates(dates@).contains((y as int, m as int, d as int)),
{
    let mut i: usize = 0;
    while i < dates.len()
        invariant
            i <= dates@.len(),
            forall|j: int|
                0 <= j < i ==> (#[trigger] as_dates(dates@)[j]) != (y as int, m as int, d as int),
        decreases dates@.len() - i,
    {
        if dates[i].0 == y && dates[i].1 == m && dates[i].2 == d {
            assert(as_dates(dates@)[i as int] == (y as int, m as int, d as int));
            return true;
        }
        i += 1;
    }
    false
}

/// Finds the date in a file name: `base` is the last component of `path`.
pub fn date_from_filename(base: &str, path: &str) -> (r: Result<Instant, String>)
    ensures
        match filename_date(utf8(base@), path@) {
            Ok(d) => r == Ok::<Instant, String>(d),
            Err(e) => r matches Err(m) && m@ == e,
        },
{
    let runs = digit_runs(base.as_bytes());
    let ghost all = crate::text::contents(runs@);
    let mut dates: Vec<(i64, u32, u32)> = Vec::new();
    let mut i: usize = 0;
    assert(as_dates(dates@) =~= dates_of(all.take(0)));
    while i < runs.len()
        invariant
            i <= runs@.len(),
            all == crate::text::contents(runs@),
            all.len() == runs@.len(),
            forall|j: int| 0 <= j < runs@.len() ==> all_digits((#[trigger] runs@[j])@),
            as_dates(dates@) == dates_of(all.take(i as int)),
            forall|j: int|
                0 <= j < dates@.len() ==> (#[trigger] dates@[j]).0 <= 9999 && dates@[j].0 >= 0
                    && is_date(dates@[j].0 as int, dates@[j].1 as int, dates@[j].2 as int),
        decreases runs@.len() - i,
    {
        let run = runs[i];
        proof {
            assert(all[i as int] == run@);
            assert(all.take(i + 1).drop_last() =~= all.take(i as int));
            assert(all.take(i + 1).last() == run@);
        }
        if run.len() >= 8 {
            let y: i64 = digits_at(run, 0, 4) as i64;
            let mo: u32 = digits_at(run, 4, 6);
            let d: u32 = digits_at(run, 6, 8);
            if valid_date(y, mo, d) && !has_date(&dates, y, mo, d) {
                let ghost before = dates@;
                dates.push((y, mo, d));
                assert(as_dates(dates@) =~= as_dates(before).push((y as int, mo as int, d as int)));
            }
        }
        i += 1;
    }
    assert(all.take(i as int) =~= all);
    if dates.len() == 0 {
        Err(with_quoted("no date found in filename ", path))
    } else if dates.len() == 1 {
        let (y, mo, d) = dates[0];
        assert(as_dates(dates@)[0] == (y as int, mo as int, d as int));
        proof {
            crate::rinex_read::lemma_near_fits(midnight(y as int, mo as int, d as int));
        }
        Ok(date_instant(y, mo, d))
    } else {
        Err(with_quoted("multiple conflicting dates found in filename ", path))
    }
}

// ---- the constraint of a file ----

/// Where the week of a file is looked for.
pub struct WeekSource<'a> {
    pub mode: WeekMode,
    pub date: Instant,
    /// The last component of the path.
    pub base: &'a str,
    pub path: &'a str,
    pub modtime: Option<Instant>,
    pub now: Instant,
}

/// Whether the constraint of a file can be counted in nanoseconds of the GPS
/// epoch.
pub open spec fn can_constrain(s: WeekSource<'_>) -> bool {
    match s.mode {
        WeekMode::Date => reaches_back(s.date, DAY_LEAD_SECS as int),
        WeekMode::Filename => filename_date(utf8(s.base@), s.path@) matches Ok(d) ==> reaches_back(
            d,
            DAY_LEAD_SECS as int,
        ),
        _ => reaches_back(s.now, WEEK_SECS as int),
    }
}

/// Whether the constraint of a file can be counted in nanoseconds of the GPS
/// epoch.
pub fn is_constrainable(s: &WeekSource<'_>) -> (r: bool)
    ensures
        r == can_constrain(*s),
{
    match s.mode {
        WeekMode::Date => can_reach_back(s.date, DAY_LEAD_SECS),
        WeekMode::Filename => match date_from_filename(s.base, s.path) {
            Ok(d) => can_reach_back(d, DAY_LEAD_SECS),
            Err(_) => true,
        },
        _ => can_reach_back(s.now, WEEK_SECS),
    }
}

/// Whether `wc` is the constraint of a file.
pub open spec fn constrains(s: WeekSource<'_>, wc: WeekConstraint) -> bool {
    let old = s.mode == WeekMode::Auto && is_old(s.now, s.modtime);
    &&& match s.mode {
        WeekMode::Date => wc.interval == interval_before(s.date, DAY_LEAD_SECS as int, DAY_SPAN_NS as int)
            && wc.errf@ == date_complaint(false),
        WeekMode::Filename => wc.interval == interval_before(
            filename_date(utf8(s.base@), s.path@)->Ok_0,
            DAY_LEAD_SECS as int,
            DAY_SPAN_NS as int,
        ) && wc.errf@ == date_complaint(true),
        _ => wc.interval == interval_before(s.now, WEEK_SECS as int, WEEK_SECS * SECOND_NS)
            && wc.errf@ == "RTCM epoch does not match recent week inference: "@,
    }
    &&& old ==> (wc.err matches Some(e) && e@ == old_file_error())
    &&& !old ==> wc.err is None
}

/// The week constraint of a file. A stream that is known to be RTCM is refused
/// where the file is too old to infer it from the clock.
pub fn file_week_constraint(s: &WeekSource<'_>, rtcm_only: bool) -> (r: Result<
    WeekConstraint,
    String,
>)
    requires
        can_constrain(*s),
    ensures
        match (s.mode, filename_date(utf8(s.base@), s.path@)) {
            (WeekMode::Filename, Err(e)) => r matches Err(m) && m@ == e,
            _ => if rtcm_only && s.mode == WeekMode::Auto && is_old(s.now, s.modtime) {
                r matches Err(m) && m@ == old_file_error()
            } else {
                r matches Ok(wc) && constrains(*s, wc)
            },
        },
{
    let wc = match s.mode {
        WeekMode::Recent => recent_week_constraint(s.now),
        WeekMode::Date => date_week_constraint(s.date, false),
        WeekMode::Filename => match date_from_filename(s.base, s.path) {
            Ok(t) => date_week_constraint(t, true),
            Err(e) => return Err(e),
        },
        WeekMode::Auto => automatic_week_constraint(s.now, s.modtime),
    };
    if rtcm_only {
        if let Some(e) = &wc.err {
            return Err(e.clone());
        }
    }
    Ok(wc)
}

} // verus!
