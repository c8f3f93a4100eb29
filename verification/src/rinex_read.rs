//! Reading a RINEX observation file.
//!
//! What the file says of a number is kept as the place where it stands in the
//! text, a [`Reading`]; whoever reads the file makes a number of it.

use crate::arc::{accumulated, lemma_accumulates, LossOfLockSink};
use crate::columns::{
    after_line, as_ranges, cols, field_ranges, find_fields, find_trimmed, is_float, is_float_text,
    lemma_digits_bound, lemma_line, line_at, line_cols, lowered, read_line, same_letters, trim_range,
};
use crate::error::{Error, Result};
use crate::keymap::{fx_get, fx_insert, fx_value};
use crate::metadata::{texts, value_or, Metadata, MetadataRunView, MetadataView};
use crate::obs::{
    code_signal, is_system, no_values, sat_code, sat_number, sat_valid, system_letter, Civil, GpsTime, Instant, ObsCode,
    SatId, SigId, SignalObservation, SignalValues, with_lli, BDT_GPS_OFFSET_SECONDS,
    DEFAULT_GPS_UTC_SECONDS, TYPE_CODE, TYPE_DOPPLER, TYPE_PHASE, TYPE_SIGNAL_STRENGTH,
};
use crate::rinex_write::{
    codes_for, ordered_systems, push_year, signed_bytes, signed_dec, systems_used, year_text,
};
use crate::rinexobs::{code_lists, system_index, system_rank};
use crate::sink::{lemma_collected, lemma_received_push, received, Collector, Sink};
use crate::text::{
    all_digits, as_chars, ascii_text, contents, dec, fields, find_byte, first_field, first_index,
    int_text, is_ascii, is_digit, repeated, lemma_dec_value, push_dec_padded, zero_padded, lossy_text, parse_i64, parse_u32, parse_uint,
    quoted_text, same_bytes, split_fields, text_of, trim, trimmed, uint_text, utf8, with_quoted, within,
};
use rustc_hash::FxHashMap;
use vstd::prelude::*;
use vstd::slice::slice_subrange;
use vstd::utf8::valid_utf8;

verus! {

/// A number that a file gives.
#[derive(Clone, Copy, Debug, PartialEq, Eq, Structural)]
pub enum Reading {
    /// The number that the text between two places denotes.
    Text(usize, usize),
    /// A whole number.
    Whole(u8),
}

/// What the header of a file says.
pub struct ObsHeader {
    pub meta: Metadata<Reading>,
    /// The codes of each system, in the order of the systems in a file.
    pub codes: Vec<Vec<ObsCode>>,
    /// The frequency channels, by the number of the satellite.
    pub frq: FxHashMap<u64, i8>,
    /// The system that the codes were last given for; 0 for none.
    pub sys: u8,
    pub time_system: Vec<u8>,
}

/// The contents of an [`ObsHeader`].
#[verifier::ext_equal]
pub struct ObsHeaderView {
    pub meta: MetadataView<Reading>,
    pub codes: Seq<Seq<ObsCode>>,
    pub frq: Map<u64, i8>,
    pub sys: u8,
    pub time_system: Seq<u8>,
}

impl View for ObsHeader {
    type V = ObsHeaderView;

    open spec fn view(&self) -> ObsHeaderView {
        ObsHeaderView {
            meta: self.meta@,
            codes: code_lists(self.codes@),
            frq: self.frq@,
            sys: self.sys,
            time_system: self.time_system@,
        }
    }
}

impl ObsHeader {
    /// Whether there is a list of codes for each system, and the system that is
    /// being read is one, or none.
    pub open spec fn wf(self) -> bool {
        self.codes@.len() == 7 && (self.sys == 0 || is_system(self.sys))
    }
}

// ---- the fields of the header ----

/// A text with a message in front of it, in quotes.
pub open spec fn complaint(what: Seq<char>, text: Seq<u8>) -> Seq<char> {
    what + quoted_text(lossy_text(text))
}

fn complain(what: &str, text: &[u8]) -> (r: String)
    ensures
        r@ == complaint(what@, text@),
{
    with_quoted(what, text_of(text).as_str())
}

/// The date and time of day in a text such as `20260519 120000 UTC`.
pub open spec fn run_date_fields(f: Seq<Seq<u8>>) -> Option<Civil> {
    if f.len() < 2 || f[0].len() != 8 || f[1].len() != 6 {
        None
    } else {
        let year = int_text(f[0].subrange(0, 4));
        let month = uint_text(f[0].subrange(4, 6));
        let day = uint_text(f[0].subrange(6, 8));
        let hour = uint_text(f[1].subrange(0, 2));
        let minute = uint_text(f[1].subrange(2, 4));
        let second = uint_text(f[1].subrange(4, 6));
        if year is Some && month is Some && day is Some && hour is Some && minute is Some
            && second is Some {
            Some(
                Civil {
                    year: year->0 as i64,
                    month: month->0 as u32,
                    day: day->0 as u32,
                    hour: hour->0 as u32,
                    minute: minute->0 as u32,
                    second: second->0 as u32,
                    nanos: 0,
                },
            )
        } else {
            None
        }
    }
}

/// The instant of a run date, where it names a day and a time of day.
pub open spec fn run_date(s: Seq<u8>) -> Option<Instant> {
    match run_date_fields(fields(s)) {
        Some(c) if c.valid() => Some(Instant { secs: c.unix() as i64, nanos: 0 }),
        _ => None,
    }
}

/// Numbers of few digits fit.
proof fn lemma_small_uint(s: Seq<u8>)
    requires
        s.len() <= 4,
    ensures
        uint_text(s) matches Some(n) ==> 0 <= n <= 9999,
        int_text(s) matches Some(n) ==> -9999 <= n <= 9999,
{
    let digits = if s.len() > 0 && s[0] == 0x2b { s.skip(1) } else { s };
    if all_digits(digits) {
        lemma_digits_bound(digits);
    }
    if s.len() > 0 && s[0] == 0x2d && all_digits(s.skip(1)) {
        lemma_digits_bound(s.skip(1));
    }
}

/// Times of four-digit years fit.
pub proof fn lemma_near_fits(c: Civil)
    requires
        c.valid(),
        -9999 <= c.year <= 9999,
    ensures
        c.unix_fits(),
{
    crate::calendar::lemma_civil_days(c.year as int, c.month as int, c.day as int);
    crate::calendar::lemma_epoch_days_ordered(
        c.year as int,
        c.month as int,
        c.day as int,
        10000,
        1,
        1,
    );
    crate::calendar::lemma_epoch_days_ordered(
        -10000,
        1,
        1,
        c.year as int,
        c.month as int,
        c.day as int,
    );
    reveal_with_fuel(crate::calendar::days_before_month, 2);
}

pub(crate) fn sub_i64(s: &[u8], a: usize, b: usize) -> (r: Option<i64>)
    requires
        a <= b <= s@.len(),
        b - a <= 4,
    ensures
        r is Some <==> int_text(s@.subrange(a as int, b as int)) is Some,
        r matches Some(n) ==> int_text(s@.subrange(a as int, b as int)) == Some(n as int) && -9999
            <= n <= 9999,
{
    proof {
        lemma_small_uint(s@.subrange(a as int, b as int));
    }
    parse_i64(slice_subrange(s, a, b))
}

pub(crate) fn sub_u32(s: &[u8], a: usize, b: usize) -> (r: Option<u32>)
    requires
        a <= b <= s@.len(),
        b - a <= 4,
    ensures
        r is Some <==> uint_text(s@.subrange(a as int, b as int)) is Some,
        r matches Some(n) ==> uint_text(s@.subrange(a as int, b as int)) == Some(n as int),
{
    proof {
        lemma_small_uint(s@.subrange(a as int, b as int));
    }
    parse_u32(slice_subrange(s, a, b))
}

/// Reads the date of a run.
pub fn parse_run_date(s: &[u8]) -> (r: Option<Instant>)
    ensures
        r == run_date(s@),
{
    let f = split_fields(s);
    let ghost all = fields(s@);
    assert(contents(f@).len() == f@.len());
    if f.len() < 2 {
        return None;
    }
    let d = f[0];
    let tm = f[1];
    assert(contents(f@)[0] == d@ && contents(f@)[1] == tm@);
    if d.len() != 8 || tm.len() != 6 {
        return None;
    }
    let year: i64 = match sub_i64(d, 0, 4) {
        Some(n) => n,
        None => return None,
    };
    let month: u32 = match sub_u32(d, 4, 6) {
        Some(n) => n,
        None => return None,
    };
    let day: u32 = match sub_u32(d, 6, 8) {
        Some(n) => n,
        None => return None,
    };
    let hour: u32 = match sub_u32(tm, 0, 2) {
        Some(n) => n,
        None => return None,
    };
    let minute: u32 = match sub_u32(tm, 2, 4) {
        Some(n) => n,
        None => return None,
    };
    let second: u32 = match sub_u32(tm, 4, 6) {
        Some(n) => n,
        None => return None,
    };
    let c = Civil { year, month, day, hour, minute, second, nanos: 0 };
    assert(run_date_fields(all) == Some(c));
    if !c.is_valid() {
        return None;
    }
    proof {
        lemma_near_fits(c);
    }
    Some(Instant::from_civil(c))
}

/// The place of a range in a line that begins at `base`.
pub open spec fn reading(base: int, range: (int, int)) -> Reading {
    Reading::Text((base + range.0) as usize, (base + range.1) as usize)
}

/// The first three fields of a content, where they are numbers.
pub open spec fn float_triple(content: Seq<u8>, base: int) -> Option<[Reading; 3]> {
    let f = fields(content);
    let r = field_ranges(content, 0);
    if f.len() >= 3 && is_float_text(f[0]) && is_float_text(f[1]) && is_float_text(f[2]) {
        Some([reading(base, r[0]), reading(base, r[1]), reading(base, r[2])])
    } else {
        None
    }
}

/// Reads three numbers.
pub fn parse_float_triple(content: &[u8], base: usize) -> (r: Option<[Reading; 3]>)
    requires
        base + content@.len() <= usize::MAX,
    ensures
        r == float_triple(content@, base as int),
{
    let f = find_fields(content);
    if f.len() < 3 {
        return None;
    }
    let mut i: usize = 0;
    while i < 3
        invariant
            i <= 3,
            f@.len() >= 3,
            f@.len() == fields(content@).len(),
            forall|j: int|
                0 <= j < f@.len() ==> (#[trigger] f@[j]).0 < f@[j].1 <= content@.len()
                    && content@.subrange(f@[j].0 as int, f@[j].1 as int) == fields(content@)[j],
            forall|j: int| 0 <= j < i ==> is_float_text(#[trigger] fields(content@)[j]),
        decreases 3 - i,
    {
        if !is_float(slice_subrange(content, f[i].0, f[i].1)) {
            assert(!is_float_text(fields(content@)[i as int]));
            return None;
        }
        i += 1;
    }
    assert(is_float_text(fields(content@)[0]) && is_float_text(fields(content@)[1])
        && is_float_text(fields(content@)[2]));
    proof {
        assert(as_ranges(f@)[0] == (f@[0].0 as int, f@[0].1 as int));
        assert(as_ranges(f@)[1] == (f@[1].0 as int, f@[1].1 as int));
        assert(as_ranges(f@)[2] == (f@[2].0 as int, f@[2].1 as int));
        assert(f@[0].1 <= content@.len() && f@[1].1 <= content@.len() && f@[2].1
            <= content@.len());
    }
    let out = [
        Reading::Text(base + f[0].0, base + f[0].1),
        Reading::Text(base + f[1].0, base + f[1].1),
        Reading::Text(base + f[2].0, base + f[2].1),
    ];
    Some(out)
}

/// The codes that fields give, or the first field that gives none.
pub open spec fn field_codes(f: Seq<Seq<u8>>) -> std::result::Result<Seq<ObsCode>, Seq<u8>>
    decreases f.len(),
{
    if f.len() == 0 {
        Ok(Seq::empty())
    } else {
        match field_codes(f.drop_last()) {
            Err(e) => Err(e),
            Ok(before) => if f.last().len() == 3 {
                Ok(before.push(ObsCode([f.last()[0], f.last()[1], f.last()[2]])))
            } else {
                Err(f.last())
            },
        }
    }
}

/// What a header line with codes does: the system that it is for, and the lists
/// of codes after it.
pub open spec fn obs_types_step(
    f: Seq<Seq<u8>>,
    prev: u8,
    codes: Seq<Seq<ObsCode>>,
) -> std::result::Result<(u8, Seq<Seq<ObsCode>>), Seq<char>> {
    if f.len() == 0 {
        Ok((prev, codes))
    } else {
        let named = f[0].len() == 1 && is_system(f[0][0]);
        let sys = if named {
            f[0][0]
        } else {
            prev
        };
        let i: int = if named {
            1
        } else {
            0
        };
        let j = if f.len() > i && within(uint_text(f[i]), 0, usize::MAX as int) is Some {
            i + 1
        } else {
            i
        };
        if sys == 0 {
            Err("rinex: observation type continuation without system"@)
        } else {
            match field_codes(f.skip(j)) {
                Err(e) => Err(complaint("rinex: invalid observation code "@, e)),
                Ok(more) => {
                    let k = system_rank(sys);
                    Ok((sys, codes.update(k, codes[k] + more)))
                },
            }
        }
    }
}

/// Reads a header line with codes; gives the system that it is for.
pub fn read_obs_types_header(
    content: &[u8],
    prev: u8,
    codes: &mut Vec<Vec<ObsCode>>,
) -> (r: std::result::Result<u8, String>)
    requires
        old(codes)@.len() == 7,
        prev == 0 || is_system(prev),
    ensures
        final(codes)@.len() == 7,
        match obs_types_step(fields(content@), prev, code_lists(old(codes)@)) {
            Ok(after) => r == Ok::<u8, String>(after.0) && code_lists(final(codes)@) == after.1
                && (after.0 == 0 || is_system(after.0)),
            Err(e) => r matches Err(m) && m@ == e,
        },
{
    let f = split_fields(content);
    let ghost all = fields(content@);
    let ghost before = code_lists(codes@);
    assert(contents(f@).len() == f@.len());
    if f.len() == 0 {
        return Ok(prev);
    }
    assert(contents(f@)[0] == f@[0]@);
    let mut sys: u8 = prev;
    let mut i: usize = 0;
    if f[0].len() == 1 && system_letter(f[0][0]) {
        sys = f[0][0];
        i = 1;
    }
    if sys == 0 {
        return Err("rinex: observation type continuation without system".to_owned());
    }
    if f.len() > i {
        assert(contents(f@)[i as int] == f@[i as int]@);
        if parse_uint(f[i], usize::MAX as u64).is_some() {
            i += 1;
        }
    }
    let k: usize = system_index(sys);
    let mut l: Vec<ObsCode> = Vec::new();
    std::mem::swap(&mut l, &mut codes[k]);
    let ghost start = l@;
    assert(start == before[k as int]);
    let bad = add_codes(&f, i, &mut l);
    if let Some(n) = bad {
        return Err(complain("rinex: invalid observation code ", f[n]));
    }
    std::mem::swap(&mut l, &mut codes[k]);
    assert(code_lists(codes@) =~= before.update(
        k as int,
        start + field_codes(all.skip(i as int))->Ok_0,
    ));
    Ok(sys)
}

/// Appends the codes that fields from `from` on give; where a field gives none,
/// tells which.
fn add_codes(f: &Vec<&[u8]>, from: usize, l: &mut Vec<ObsCode>) -> (r: Option<usize>)
    requires
        from <= f@.len(),
    ensures
        match field_codes(contents(f@).skip(from as int)) {
            Ok(more) => r is None && final(l)@ == old(l)@ + more,
            Err(e) => r matches Some(n) && n < f@.len() && f@[n as int]@ == e,
        },
{
    let ghost rest = contents(f@).skip(from as int);
    let ghost start = l@;
    let mut i: usize = from;
    assert(rest.take(0) =~= Seq::empty());
    assert(l@ =~= start + Seq::<ObsCode>::empty());
    while i < f.len()
        invariant
            from <= i <= f@.len(),
            rest == contents(f@).skip(from as int),
            rest.len() == f@.len() - from,
            start == old(l)@,
            field_codes(rest.take(i - from)) matches Ok(more) && l@ == start + more,
        decreases f@.len() - i,
    {
        let code = f[i];
        proof {
            assert(contents(f@)[i as int] == code@);
            assert(rest.take(i - from + 1).drop_last() =~= rest.take(i - from));
            assert(rest.take(i - from + 1).last() == code@);
        }
        if code.len() != 3 {
            proof {
                lemma_field_codes_err(rest, i - from + 1);
            }
            return Some(i);
        }
        l.push(ObsCode([code[0], code[1], code[2]]));
        i += 1;
        assert(l@ =~= start + field_codes(rest.take(i - from))->Ok_0);
    }
    assert(rest.take(i - from) =~= rest);
    None
}

proof fn lemma_field_codes_err(f: Seq<Seq<u8>>, n: int)
    requires
        0 <= n <= f.len(),
        field_codes(f.take(n)) is Err,
    ensures
        field_codes(f) == field_codes(f.take(n)),
    decreases f.len() - n,
{
    if n < f.len() {
        assert(f.take(n + 1).drop_last() =~= f.take(n));
        lemma_field_codes_err(f, n + 1);
    } else {
        assert(f.take(n) =~= f);
    }
}

/// What is wrong with the unit of the signal strength, if anything is.
pub open spec fn unit_error(content: Seq<u8>) -> Option<Seq<char>> {
    let f = fields(content);
    if f.len() == 0 {
        Some("rinex: missing signal strength unit"@)
    } else if lowered(f[0]) == lowered(utf8("DBHZ"@)) || lowered(f[0]) == lowered(utf8("DB-HZ"@)) {
        None
    } else {
        Some(complaint("rinex: unsupported signal strength unit "@, f[0]))
    }
}

/// Reads the unit of the signal strength, which has to be dB-Hz.
pub fn read_signal_strength_unit(content: &[u8]) -> (r: std::result::Result<(), String>)
    ensures
        match unit_error(content@) {
            None => r is Ok,
            Some(e) => r matches Err(m) && m@ == e,
        },
{
    match first_field(content) {
        None => Err("rinex: missing signal strength unit".to_owned()),
        Some(field) => if same_letters(field, "DBHZ".as_bytes()) || same_letters(
            field,
            "DB-HZ".as_bytes(),
        ) {
            Ok(())
        } else {
            Err(complain("rinex: unsupported signal strength unit ", field))
        },
    }
}

/// The channels after those that pairs of fields from `i` on give: a satellite
/// and its number. Pairs with no valid satellite are passed over.
pub open spec fn channel_pairs(f: Seq<Seq<u8>>, i: int, m: Map<u64, i8>) -> std::result::Result<
    Map<u64, i8>,
    Seq<char>,
>
    decreases f.len() - i,
{
    if i + 1 >= f.len() {
        Ok(m)
    } else {
        match within(int_text(f[i + 1]), i64::MIN as int, i64::MAX as int) {
            None => Err(complaint("rinex: invalid GLONASS frequency "@, f[i + 1])),
            Some(n) => channel_pairs(
                f,
                i + 2,
                if sat_valid(f[i]) {
                    m.insert(sat_number(SatId([f[i][0], f[i][1], f[i][2]])), n as i8)
                } else {
                    m
                },
            ),
        }
    }
}

/// What a header line with channels does: the number of satellites may stand in
/// front of the pairs.
pub open spec fn channels_step(f: Seq<Seq<u8>>, m: Map<u64, i8>) -> std::result::Result<
    Map<u64, i8>,
    Seq<char>,
> {
    if f.len() == 0 {
        Ok(m)
    } else if within(int_text(f[0]), i64::MIN as int, i64::MAX as int) is Some {
        channel_pairs(f, 1, m)
    } else {
        channel_pairs(f, 0, m)
    }
}

/// Reads a header line with channels.
pub fn read_glonass_freq_header(content: &[u8], frq: &mut FxHashMap<u64, i8>) -> (r:
    std::result::Result<(), String>)
    ensures
        match channels_step(fields(content@), old(frq)@) {
            Ok(m) => r is Ok && final(frq)@ == m,
            Err(e) => r matches Err(msg) && msg@ == e,
        },
{
    let f = split_fields(content);
    let ghost all = fields(content@);
    assert(contents(f@).len() == f@.len());
    if f.len() == 0 {
        return Ok(());
    }
    let mut i: usize = 0;
    assert(contents(f@)[0] == f@[0]@);
    if parse_i64(f[0]).is_some() {
        i = 1;
    }
    let n: usize = f.len();
    while i < n && n - i > 1
        invariant
            i <= n,
            n == f@.len(),
            all == contents(f@),
            all.len() == n,
            all == fields(content@),
            channels_step(all, old(frq)@) == channel_pairs(all, i as int, frq@),
        decreases n - i,
    {
        assert(all[i as int] == f@[i as int]@);
        assert(all[i + 1] == f@[i + 1]@);
        match parse_i64(f[i + 1]) {
            None => {
                return Err(complain("rinex: invalid GLONASS frequency ", f[i + 1]));
            },
            Some(v) => {
                if let Some(sat) = SatId::from_bytes(f[i]) {
                    assert(sat.0 =~= [all[i as int][0], all[i as int][1], all[i as int][2]]);
                    fx_insert(frq, sat_code(sat), v as i8);
                }
            },
        }
        i += 2;
    }
    Ok(())
}

/// The name of the time system at the end of a time in the header.
pub open spec fn time_system_of(f: Seq<Seq<u8>>) -> Option<Seq<u8>> {
    if f.len() >= 7 {
        Some(f[6])
    } else {
        None
    }
}

fn owned(s: &[u8]) -> (r: Vec<u8>)
    ensures
        r@ == s@,
{
    let mut out: Vec<u8> = Vec::new();
    crate::text::push_bytes(&mut out, s);
    assert(out@ =~= s@);
    out
}

/// Reads the name of the time system at the end of a time in the header.
pub fn read_time_system(content: &[u8]) -> (r: Option<Vec<u8>>)
    ensures
        match time_system_of(fields(content@)) {
            Some(name) => r matches Some(v) && v@ == name,
            None => r is None,
        },
{
    let f = split_fields(content);
    assert(contents(f@).len() == f@.len());
    if f.len() >= 7 {
        assert(contents(f@)[6] == f@[6]@);
        Some(owned(f[6]))
    } else {
        None
    }
}

/// The time system that a satellite system keeps, by its place in a file.
pub open spec fn system_time(k: int) -> Seq<char> {
    if k == 1 {
        "GLO"@
    } else if k == 2 {
        "GAL"@
    } else if k == 3 {
        "QZS"@
    } else if k == 4 {
        "BDT"@
    } else if k == 5 {
        "IRN"@
    } else {
        "GPS"@
    }
}

/// The time system of a file that names none: that of its only satellite system,
/// else GPS time.
pub open spec fn default_time(codes: Seq<Seq<ObsCode>>) -> Seq<u8> {
    let systems = systems_used(codes);
    if systems.len() == 1 {
        utf8(system_time(systems[0]))
    } else {
        utf8("GPS"@)
    }
}

/// The time system that a satellite system keeps, by its place in a file.
pub fn system_time_system(k: usize) -> (r: &'static str)
    ensures
        r@ == system_time(k as int),
{
    match k {
        1 => "GLO",
        2 => "GAL",
        3 => "QZS",
        4 => "BDT",
        5 => "IRN",
        _ => "GPS",
    }
}

/// The time system of a file that names none.
pub fn file_time_system(codes: &Vec<Vec<ObsCode>>) -> (r: Vec<u8>)
    ensures
        r@ == default_time(code_lists(codes@)),
{
    let systems = ordered_systems(codes);
    let ghost s = systems@.map_values(|k: usize| k as int);
    if systems.len() == 1 {
        assert(s[0] == systems@[0]);
        owned(system_time_system(systems[0]).as_bytes())
    } else {
        owned("GPS".as_bytes())
    }
}

/// A text without the blanks at its end.
pub open spec fn without_blanks(s: Seq<u8>) -> Seq<u8>
    decreases s.len(),
{
    if s.len() > 0 && s.last() == 0x20 {
        without_blanks(s.drop_last())
    } else {
        s
    }
}

fn trim_blanks(s: &[u8]) -> (r: &[u8])
    ensures
        r@ == without_blanks(s@),
{
    let mut n: usize = s.len();
    assert(s@.take(n as int) =~= s@);
    while n > 0 && s[n - 1] == 0x20
        invariant
            n <= s@.len(),
            without_blanks(s@) == without_blanks(s@.take(n as int)),
        decreases n,
    {
        assert(s@.take(n as int).drop_last() =~= s@.take(n - 1));
        n -= 1;
    }
    let r = slice_subrange(s, 0, n);
    assert(r@ =~= s@.take(n as int));
    r
}

// ---- the header ----

/// The text in columns of a line, without the whitespace around it.
pub open spec fn col_text(line: Seq<u8>, a: int, b: int) -> Seq<char> {
    lossy_text(trimmed(cols(line, a, b)))
}

fn column_text(line: &[u8], a: usize, b: usize) -> (r: String)
    requires
        a <= b,
    ensures
        r@ == col_text(line@, a as int, b as int),
{
    text_of(trim(line_cols(line, a, b)))
}

/// The label of a header line.
pub open spec fn label_of(line: Seq<u8>) -> Seq<u8> {
    trimmed(cols(line, 60, 80))
}

/// What a header line about the station says: nothing where it is none.
pub open spec fn station_step(m: MetadataView<Reading>, line: Seq<u8>) -> Option<
    MetadataView<Reading>,
> {
    let label = label_of(line);
    if label == utf8("MARKER NAME"@) {
        Some(
            MetadataView {
                marker: crate::metadata::MarkerView { name: col_text(line, 0, 60), ..m.marker },
                ..m
            },
        )
    } else if label == utf8("MARKER NUMBER"@) {
        Some(
            MetadataView {
                marker: crate::metadata::MarkerView { number: col_text(line, 0, 60), ..m.marker },
                ..m
            },
        )
    } else if label == utf8("MARKER TYPE"@) {
        Some(
            MetadataView {
                marker: crate::metadata::MarkerView { type_: col_text(line, 0, 60), ..m.marker },
                ..m
            },
        )
    } else if label == utf8("OBSERVER / AGENCY"@) {
        Some(
            MetadataView {
                observer: col_text(line, 0, 20),
                agency: col_text(line, 20, 60),
                ..m
            },
        )
    } else if label == utf8("REC # / TYPE / VERS"@) {
        Some(
            MetadataView {
                receiver: crate::metadata::ReceiverView {
                    number: col_text(line, 0, 20),
                    type_: col_text(line, 20, 40),
                    version: col_text(line, 40, 60),
                },
                ..m
            },
        )
    } else if label == utf8("ANT # / TYPE"@) {
        Some(
            MetadataView {
                antenna: crate::metadata::AntennaView {
                    number: col_text(line, 0, 20),
                    type_: col_text(line, 20, 40),
                },
                ..m
            },
        )
    } else {
        None
    }
}

fn label_is(label: &[u8], name: &str) -> (r: bool)
    ensures
        r == (label@ == utf8(name@)),
{
    same_bytes(label, name.as_bytes())
}

/// Reads a header line about the station; tells whether it is one.
fn read_station_line(m: &mut Metadata<Reading>, label: &[u8], line: &[u8]) -> (r: bool)
    requires
        label@ == label_of(line@),
    ensures
        match station_step(old(m)@, line@) {
            Some(after) => r && final(m)@ == after,
            None => !r && *final(m) == *old(m),
        },
{
    if label_is(label, "MARKER NAME") {
        m.marker.name = column_text(line, 0, 60);
    } else if label_is(label, "MARKER NUMBER") {
        m.marker.number = column_text(line, 0, 60);
    } else if label_is(label, "MARKER TYPE") {
        m.marker.type_ = column_text(line, 0, 60);
    } else if label_is(label, "OBSERVER / AGENCY") {
        m.observer = column_text(line, 0, 20);
        m.agency = column_text(line, 20, 60);
    } else if label_is(label, "REC # / TYPE / VERS") {
        m.receiver.number = column_text(line, 0, 20);
        m.receiver.type_ = column_text(line, 20, 40);
        m.receiver.version = column_text(line, 40, 60);
    } else if label_is(label, "ANT # / TYPE") {
        m.antenna.number = column_text(line, 0, 20);
        m.antenna.type_ = column_text(line, 20, 40);
    } else {
        return false;
    }
    true
}

/// What a header line about the file says: nothing where it is none.
pub open spec fn origin_step(m: MetadataView<Reading>, line: Seq<u8>, base: int) -> Option<
    MetadataView<Reading>,
> {
    let label = label_of(line);
    let content = cols(line, 0, 60);
    if label == utf8("RINEX VERSION / TYPE"@) {
        let f = fields(cols(line, 0, 20));
        Some(
            MetadataView {
                version: if f.len() > 0 {
                    lossy_text(f[0])
                } else {
                    m.version
                },
                ..m
            },
        )
    } else if label == utf8("PGM / RUN BY / DATE"@) {
        Some(
            MetadataView {
                run: MetadataRunView {
                    program: col_text(line, 0, 20),
                    by: col_text(line, 20, 40),
                    date: run_date(cols(line, 40, 60)),
                },
                ..m
            },
        )
    } else if label == utf8("COMMENT"@) {
        Some(
            MetadataView { comment: m.comment.push(lossy_text(without_blanks(content))), ..m },
        )
    } else if label == utf8("APPROX POSITION XYZ"@) {
        Some(
            MetadataView {
                approx_position: match float_triple(content, base) {
                    Some(v) => Some(v),
                    None => m.approx_position,
                },
                ..m
            },
        )
    } else if label == utf8("ANTENNA: DELTA H/E/N"@) {
        Some(
            MetadataView {
                antenna_delta: match float_triple(content, base) {
                    Some(v) => Some(v),
                    None => m.antenna_delta,
                },
                ..m
            },
        )
    } else {
        None
    }
}

/// Reads a header line about the file; tells whether it is one.
fn read_origin_line(m: &mut Metadata<Reading>, label: &[u8], line: &[u8], base: usize) -> (r: bool)
    requires
        label@ == label_of(line@),
        base + line@.len() <= usize::MAX,
    ensures
        match origin_step(old(m)@, line@, base as int) {
            Some(after) => r && final(m)@ == after,
            None => !r && *final(m) == *old(m),
        },
{
    if label_is(label, "RINEX VERSION / TYPE") {
        if let Some(field) = first_field(line_cols(line, 0, 20)) {
            m.version = text_of(field);
        }
    } else if label_is(label, "PGM / RUN BY / DATE") {
        m.run.program = column_text(line, 0, 20);
        m.run.by = column_text(line, 20, 40);
        m.run.date = parse_run_date(line_cols(line, 40, 60));
    } else if label_is(label, "COMMENT") {
        let ghost before = m.comment@;
        m.comment.push(text_of(trim_blanks(line_cols(line, 0, 60))));
        assert(texts(m.comment@) =~= texts(before).push(
            lossy_text(without_blanks(cols(line@, 0, 60))),
        ));
    } else if label_is(label, "APPROX POSITION XYZ") {
        if let Some(v) = parse_float_triple(line_cols(line, 0, 60), base) {
            m.approx_position = Some(v);
        }
    } else if label_is(label, "ANTENNA: DELTA H/E/N") {
        if let Some(v) = parse_float_triple(line_cols(line, 0, 60), base) {
            m.antenna_delta = Some(v);
        }
    } else {
        return false;
    }
    true
}

/// What becomes of a header after one more line.
pub enum HeaderStep {
    /// More lines are to come.
    More(ObsHeaderView),
    /// The header is complete.
    Done(ObsHeaderView),
    /// The line cannot be read.
    Fail(Seq<char>),
}

/// What a header line about the observations says.
pub open spec fn contents_step(h: ObsHeaderView, line: Seq<u8>, base: int) -> HeaderStep {
    let label = label_of(line);
    let f = fields(cols(line, 0, 60));
    if label == utf8("SYS / # / OBS TYPES"@) {
        match obs_types_step(f, h.sys, h.codes) {
            Ok((sys, codes)) => HeaderStep::More(ObsHeaderView { sys, codes, ..h }),
            Err(e) => HeaderStep::Fail(e),
        }
    } else if label == utf8("SYS / SCALE FACTOR"@) {
        HeaderStep::Fail("rinex: unsupported SYS / SCALE FACTOR header"@)
    } else if label == utf8("SIGNAL STRENGTH UNIT"@) {
        match unit_error(cols(line, 0, 60)) {
            Some(e) => HeaderStep::Fail(e),
            None => HeaderStep::More(h),
        }
    } else if label == utf8("INTERVAL"@) {
        if f.len() == 0 {
            HeaderStep::More(h)
        } else if is_float_text(f[0]) {
            HeaderStep::More(
                ObsHeaderView {
                    meta: MetadataView {
                        interval: Some(reading(base, field_ranges(cols(line, 0, 60), 0)[0])),
                        ..h.meta
                    },
                    ..h
                },
            )
        } else {
            HeaderStep::Fail(complaint("rinex: invalid interval "@, f[0]))
        }
    } else if label == utf8("GLONASS SLOT / FRQ #"@) {
        match channels_step(f, h.frq) {
            Ok(frq) => HeaderStep::More(ObsHeaderView { frq, ..h }),
            Err(e) => HeaderStep::Fail(e),
        }
    } else if label == utf8("LEAP SECONDS"@) {
        if f.len() == 0 {
            HeaderStep::More(h)
        } else {
            match within(int_text(f[0]), i64::MIN as int, i64::MAX as int) {
                Some(n) => HeaderStep::More(
                    ObsHeaderView {
                        meta: MetadataView { leap_seconds: Some(n as i16), ..h.meta },
                        ..h
                    },
                ),
                None => HeaderStep::Fail(complaint("rinex: invalid leap seconds "@, f[0])),
            }
        }
    } else {
        time_step(h, line)
    }
}

/// What a header line about the time, or the last line, says.
pub open spec fn time_step(h: ObsHeaderView, line: Seq<u8>) -> HeaderStep {
    let label = label_of(line);
    let named = time_system_of(fields(cols(line, 0, 60)));
    if label == utf8("TIME OF FIRST OBS"@) || (label == utf8("TIME OF LAST OBS"@)
        && h.time_system.len() == 0) {
        HeaderStep::More(
            ObsHeaderView {
                time_system: match named {
                    Some(name) => name,
                    None => h.time_system,
                },
                ..h
            },
        )
    } else if label == utf8("END OF HEADER"@) {
        HeaderStep::Done(
            ObsHeaderView {
                time_system: if h.time_system.len() == 0 {
                    default_time(h.codes)
                } else {
                    h.time_system
                },
                ..h
            },
        )
    } else {
        HeaderStep::More(h)
    }
}

/// What a header line says, of whatever kind it is.
#[verifier::opaque]
pub open spec fn header_step(h: ObsHeaderView, line: Seq<u8>, base: int) -> HeaderStep {
    match origin_step(h.meta, line, base) {
        Some(meta) => HeaderStep::More(ObsHeaderView { meta, ..h }),
        None => match station_step(h.meta, line) {
            Some(meta) => HeaderStep::More(ObsHeaderView { meta, ..h }),
            None => contents_step(h, line, base),
        },
    }
}

/// Whether a result is what a step says.
pub open spec fn stepped(
    step: HeaderStep,
    after: ObsHeader,
    r: std::result::Result<bool, String>,
) -> bool {
    match step {
        HeaderStep::More(h) => r == Ok::<bool, String>(false) && after@ == h,
        HeaderStep::Done(h) => r == Ok::<bool, String>(true) && after@ == h,
        HeaderStep::Fail(e) => r matches Err(m) && m@ == e,
    }
}

fn read_time_line(h: &mut ObsHeader, label: &[u8], line: &[u8]) -> (r: std::result::Result<
    bool,
    String,
>)
    requires
        label@ == label_of(line@),
        old(h).wf(),
    ensures
        final(h).wf(),
        stepped(time_step(old(h)@, line@), *final(h), r),
{
    if label_is(label, "TIME OF FIRST OBS") || (label_is(label, "TIME OF LAST OBS")
        && h.time_system.len() == 0) {
        if let Some(sys) = read_time_system(line_cols(line, 0, 60)) {
            h.time_system = sys;
        }
    } else if label_is(label, "END OF HEADER") {
        if h.time_system.len() == 0 {
            h.time_system = file_time_system(&h.codes);
        }
        return Ok(true);
    }
    Ok(false)
}

fn read_contents_line(h: &mut ObsHeader, label: &[u8], line: &[u8], base: usize) -> (r:
    std::result::Result<bool, String>)
    requires
        label@ == label_of(line@),
        base + line@.len() <= usize::MAX,
        old(h).wf(),
    ensures
        r is Ok ==> final(h).wf(),
        stepped(contents_step(old(h)@, line@, base as int), *final(h), r),
{
    let content = line_cols(line, 0, 60);
    if label_is(label, "SYS / # / OBS TYPES") {
        match read_obs_types_header(content, h.sys, &mut h.codes) {
            Ok(sys) => {
                h.sys = sys;
            },
            Err(e) => return Err(e),
        }
        Ok(false)
    } else if label_is(label, "SYS / SCALE FACTOR") {
        Err("rinex: unsupported SYS / SCALE FACTOR header".to_owned())
    } else if label_is(label, "SIGNAL STRENGTH UNIT") {
        match read_signal_strength_unit(content) {
            Ok(_) => Ok(false),
            Err(e) => Err(e),
        }
    } else if label_is(label, "INTERVAL") {
        let f = find_fields(content);
        if f.len() > 0 {
            let (a, b) = f[0];
            let field = slice_subrange(content, a, b);
            if !is_float(field) {
                return Err(complain("rinex: invalid interval ", field));
            }
            assert(as_ranges(f@)[0] == (a as int, b as int));
            h.meta.interval = Some(Reading::Text(base + a, base + b));
        }
        Ok(false)
    } else if label_is(label, "GLONASS SLOT / FRQ #") {
        match read_glonass_freq_header(content, &mut h.frq) {
            Ok(_) => Ok(false),
            Err(e) => Err(e),
        }
    } else if label_is(label, "LEAP SECONDS") {
        if let Some(field) = first_field(content) {
            match parse_i64(field) {
                Some(n) => {
                    h.meta.leap_seconds = Some(n as i16);
                },
                None => return Err(complain("rinex: invalid leap seconds ", field)),
            }
        }
        Ok(false)
    } else {
        read_time_line(h, label, line)
    }
}

/// Reads a line of the header; tells whether it is the last.
pub fn read_header_line(h: &mut ObsHeader, line: &[u8], base: usize) -> (r: std::result::Result<
    bool,
    String,
>)
    requires
        base + line@.len() <= usize::MAX,
        old(h).wf(),
    ensures
        r is Ok ==> final(h).wf(),
        stepped(header_step(old(h)@, line@, base as int), *final(h), r),
{
    reveal(header_step);
    let label = trim(line_cols(line, 60, 80));
    if read_origin_line(&mut h.meta, label, line, base) {
        return Ok(false);
    }
    if read_station_line(&mut h.meta, label, line) {
        return Ok(false);
    }
    read_contents_line(h, label, line, base)
}

/// A header in which nothing is said.
pub open spec fn no_header() -> ObsHeaderView {
    ObsHeaderView {
        meta: crate::metadata::no_metadata(),
        codes: Seq::new(7, |k: int| Seq::empty()),
        frq: Map::empty(),
        sys: 0,
        time_system: Seq::empty(),
    }
}

/// What the lines from `pos` on make of a header: the complete header and where
/// the epochs begin, or what is wrong.
pub open spec fn header_from(d: Seq<u8>, pos: int, h: ObsHeaderView) -> std::result::Result<
    (ObsHeaderView, int),
    Seq<char>,
>
    decreases d.len() - pos,
{
    if pos < 0 || pos >= d.len() {
        Err("rinex: missing END OF HEADER"@)
    } else {
        proof {
            lemma_line(d, pos);
        }
        match header_step(h, line_at(d, pos), pos) {
            HeaderStep::Fail(e) => Err(e),
            HeaderStep::Done(after) => Ok((after, after_line(d, pos))),
            HeaderStep::More(after) => header_from(d, after_line(d, pos), after),
        }
    }
}

/// Reads the header in the text of a file; gives it and where the epochs begin.
pub fn read_header(text: &str) -> (r: std::result::Result<(ObsHeader, usize), String>)
    ensures
        match header_from(utf8(text@), 0, no_header()) {
            Ok((h, pos)) => r matches Ok(x) && x.0@ == h && x.0.wf() && x.1 == pos && x.1 <= utf8(
                text@,
            ).len(),
            Err(e) => r matches Err(m) && m@ == e,
        },
{
    read_header_lines(text.as_bytes())
}

fn read_header_lines(d: &[u8]) -> (r: std::result::Result<(ObsHeader, usize), String>)
    ensures
        match header_from(d@, 0, no_header()) {
            Ok((h, pos)) => r matches Ok(x) && x.0@ == h && x.0.wf() && x.1 == pos && x.1
                <= d@.len(),
            Err(e) => r matches Err(m) && m@ == e,
        },
{
    let mut codes: Vec<Vec<ObsCode>> = Vec::new();
    let mut k: usize = 0;
    while k < 7
        invariant
            k <= 7,
            codes@.len() == k,
            forall|j: int| 0 <= j < k ==> (#[trigger] codes@[j])@.len() == 0,
        decreases 7 - k,
    {
        codes.push(Vec::new());
        k += 1;
    }
    let mut h = ObsHeader {
        meta: Metadata::default(),
        codes,
        frq: FxHashMap::default(),
        sys: 0,
        time_system: Vec::new(),
    };
    proof {
        assert forall|j: int| 0 <= j < 7 implies #[trigger] code_lists(codes@)[j]
            == Seq::<ObsCode>::empty() by {
            assert(codes@[j]@ =~= Seq::empty());
        }
        assert(code_lists(codes@) =~= no_header().codes);
        assert(h.time_system@ =~= Seq::empty());
        assert(h.frq@ =~= Map::empty());
        assert(h@ == no_header());
    }
    let mut pos: usize = 0;
    while pos < d.len()
        invariant
            pos <= d@.len(),
            h.wf(),
            header_from(d@, pos as int, h@) == header_from(d@, 0, no_header()),
        decreases d@.len() - pos,
    {
        let (line, next) = read_line(d, pos);
        proof {
            lemma_line_inside(d@, pos as int);
        }
        match read_header_line(&mut h, line, pos) {
            Err(e) => return Err(e),
            Ok(done) => if done {
                return Ok((h, next));
            },
        }
        pos = next;
    }
    Err("rinex: missing END OF HEADER".to_owned())
}

proof fn lemma_line_inside(d: Seq<u8>, pos: int)
    requires
        0 <= pos < d.len(),
    ensures
        pos + line_at(d, pos).len() <= d.len(),
{
    lemma_line(d, pos);
    lemma_returns_len(d.subrange(pos, crate::columns::line_end(d, pos)));
}

proof fn lemma_returns_len(s: Seq<u8>)
    ensures
        crate::columns::without_returns(s).len() <= s.len(),
    decreases s.len(),
{
    if s.len() > 0 && s.last() == 0x0d {
        lemma_returns_len(s.drop_last());
    }
}

// ---- the time of an epoch ----

/// The first seven digits of a fraction, filled up with zeros.
pub open spec fn seven_places(s: Seq<u8>) -> Seq<u8> {
    (s + crate::text::repeated(0x30, 7)).take(7)
}

/// The seconds before the decimal point of a text, and the digits behind it.
pub open spec fn split_point(s: Seq<u8>) -> (Seq<u8>, Seq<u8>) {
    let i = first_index(s, 0x2e);
    if i < s.len() {
        (s.take(i), s.skip(i + 1))
    } else {
        (s, Seq::empty())
    }
}

/// What is said of a date that does not exist, or is too far away for a tick.
pub open spec fn date_error(c: Civil) -> Seq<char> {
    "rinex: invalid epoch date "@ + as_chars(
        year_text(c.year as int) + seq![0x2du8] + zero_padded(c.month as nat, 2) + seq![0x2du8]
            + zero_padded(c.day as nat, 2) + seq![0x20u8] + zero_padded(c.hour as nat, 2)
            + seq![0x3au8] + zero_padded(c.minute as nat, 2) + seq![0x3au8] + zero_padded(
            c.second as nat,
            2,
        ),
    )
}

/// The tick of the time that the fields of an epoch line give.
pub open spec fn rinex_time(
    year: Seq<u8>,
    month: Seq<u8>,
    day: Seq<u8>,
    hour: Seq<u8>,
    minute: Seq<u8>,
    second: Seq<u8>,
) -> std::result::Result<GpsTime, Seq<char>> {
    let (whole, fraction) = split_point(second);
    match (
        within(int_text(year), i64::MIN as int, i64::MAX as int),
        within(uint_text(month), 0, u32::MAX as int),
        within(uint_text(day), 0, u32::MAX as int),
        within(uint_text(hour), 0, u32::MAX as int),
        within(uint_text(minute), 0, u32::MAX as int),
        within(uint_text(whole), 0, u32::MAX as int),
        int_text(seven_places(fraction)),
    ) {
        (None, _, _, _, _, _, _) => Err(complaint("rinex: invalid year "@, year)),
        (_, None, _, _, _, _, _) => Err(complaint("rinex: invalid month "@, month)),
        (_, _, None, _, _, _, _) => Err(complaint("rinex: invalid day "@, day)),
        (_, _, _, None, _, _, _) => Err(complaint("rinex: invalid hour "@, hour)),
        (_, _, _, _, None, _, _) => Err(complaint("rinex: invalid minute "@, minute)),
        (_, _, _, _, _, None, _) => Err(complaint("rinex: invalid second "@, second)),
        (_, _, _, _, _, _, None) => Err(complaint("rinex: invalid fractional second "@, second)),
        (Some(y), Some(mo), Some(d), Some(h), Some(m), Some(s), Some(tick)) => {
            let c = Civil {
                year: y as i64,
                month: mo as u32,
                day: d as u32,
                hour: h as u32,
                minute: m as u32,
                second: s as u32,
                nanos: 0,
            };
            if c.valid() && c.gps_fits() {
                Ok(GpsTime((c.gps_ns() / 100 + tick) as i64))
            } else {
                Err(date_error(c))
            }
        },
    }
}

fn push_two(out: &mut Vec<u8>, n: u32)
    ensures
        final(out)@ == old(out)@ + zero_padded(n as nat, 2),
{
    push_dec_padded(out, n as u64, 2, 0x30);
}

proof fn lemma_padded_ascii(n: nat, w: int)
    ensures
        is_ascii(zero_padded(n, w)),
{
    lemma_dec_value(n);
    assert forall|i: int| 0 <= i < zero_padded(n, w).len() implies #[trigger] zero_padded(n, w)[i]
        < 0x80 by {
        let z = crate::text::repeated(0x30, w - dec(n).len());
        if i >= z.len() {
            assert(crate::text::is_digit(dec(n)[i - z.len()]));
        }
    }
}

fn bad_date(c: &Civil) -> (r: String)
    requires
        c.year > i64::MIN,
    ensures
        r@ == date_error(*c),
{
    let mut out: Vec<u8> = Vec::new();
    push_year(&mut out, c.year);
    out.push(0x2d);
    push_two(&mut out, c.month);
    out.push(0x2d);
    push_two(&mut out, c.day);
    out.push(0x20);
    push_two(&mut out, c.hour);
    out.push(0x3a);
    push_two(&mut out, c.minute);
    out.push(0x3a);
    push_two(&mut out, c.second);
    let ghost t = year_text(c.year as int) + seq![0x2du8] + zero_padded(c.month as nat, 2)
        + seq![0x2du8] + zero_padded(c.day as nat, 2) + seq![0x20u8] + zero_padded(
        c.hour as nat,
        2,
    ) + seq![0x3au8] + zero_padded(c.minute as nat, 2) + seq![0x3au8] + zero_padded(
        c.second as nat,
        2,
    );
    proof {
        assert(out@ =~= t);
        lemma_padded_ascii((-c.year) as nat, 3);
        lemma_padded_ascii(c.year as nat, 4);
        lemma_padded_ascii(c.month as nat, 2);
        lemma_padded_ascii(c.day as nat, 2);
        lemma_padded_ascii(c.hour as nat, 2);
        lemma_padded_ascii(c.minute as nat, 2);
        lemma_padded_ascii(c.second as nat, 2);
        assert(is_ascii(t));
    }
    "rinex: invalid epoch date ".to_owned().concat(ascii_text(out.as_slice()).as_str())
}

/// Reads the tick of the time that the fields of an epoch line give. The year is
/// short enough for its digits to be counted.
pub fn parse_rinex_time(
    year: &[u8],
    month: &[u8],
    day: &[u8],
    hour: &[u8],
    minute: &[u8],
    second: &[u8],
) -> (r: std::result::Result<GpsTime, String>)
    requires
        year@.len() <= 4,
    ensures
        match rinex_time(year@, month@, day@, hour@, minute@, second@) {
            Ok(t) => r == Ok::<GpsTime, String>(t) && t.0 * 100 - 1_000_000_000 <= i64::MAX
                && i64::MIN <= t.0 * 100 + 1_000_000_000,
            Err(e) => r matches Err(m) && m@ == e,
        },
{
    proof {
        lemma_small_uint(year@);
    }
    let y: i64 = match parse_i64(year) {
        Some(n) => n,
        None => return Err(complain("rinex: invalid year ", year)),
    };
    let mo: u32 = match parse_u32(month) {
        Some(n) => n,
        None => return Err(complain("rinex: invalid month ", month)),
    };
    let d: u32 = match parse_u32(day) {
        Some(n) => n,
        None => return Err(complain("rinex: invalid day ", day)),
    };
    let h: u32 = match parse_u32(hour) {
        Some(n) => n,
        None => return Err(complain("rinex: invalid hour ", hour)),
    };
    let m: u32 = match parse_u32(minute) {
        Some(n) => n,
        None => return Err(complain("rinex: invalid minute ", minute)),
    };
    let i: usize = find_byte(second, 0x2e);
    let whole = slice_subrange(second, 0, i);
    let mut places: Vec<u8> = Vec::new();
    let ghost fraction = split_point(second@).1;
    if i < second.len() {
        let rest = slice_subrange(second, i + 1, second.len());
        assert(rest@ =~= fraction);
        crate::text::push_bytes(&mut places, rest);
        assert(places@ =~= fraction);
    } else {
        assert(places@ =~= fraction);
    }
    assert(whole@ =~= split_point(second@).0);
    let s: u32 = match parse_u32(whole) {
        Some(n) => n,
        None => return Err(complain("rinex: invalid second ", second)),
    };
    crate::text::push_repeated(&mut places, 0x30, 7);
    let seven = slice_subrange(places.as_slice(), 0, 7);
    proof {
        assert(seven@ =~= seven_places(fraction));
        lemma_seven(seven@);
    }
    let tick: i64 = match parse_i64(seven) {
        Some(n) => n,
        None => return Err(complain("rinex: invalid fractional second ", second)),
    };
    let c = Civil { year: y, month: mo, day: d, hour: h, minute: m, second: s, nanos: 0 };
    if !c.is_valid() || !c.fits_gps() {
        return Err(bad_date(&c));
    }
    let base = GpsTime::from_civil(c);
    Ok(GpsTime(base.0 + tick))
}

proof fn lemma_seven(s: Seq<u8>)
    requires
        s.len() == 7,
    ensures
        int_text(s) matches Some(n) ==> -9_999_999 <= n <= 9_999_999,
{
    let digits = if s[0] == 0x2b { s.skip(1) } else { s };
    if all_digits(digits) {
        lemma_digits_bound(digits);
    }
    if s[0] == 0x2d && all_digits(s.skip(1)) {
        lemma_digits_bound(s.skip(1));
    }
}

/// A number in an epoch line.
pub open spec fn epoch_int(s: Seq<u8>, missing: Seq<char>, invalid: Seq<char>) -> std::result::Result<
    int,
    Seq<char>,
> {
    if s.len() == 0 {
        Err(missing)
    } else {
        match within(int_text(s), i32::MIN as int, i32::MAX as int) {
            Some(n) => Ok(n),
            None => Err(complaint(invalid, s)),
        }
    }
}

/// Reads a number in an epoch line.
fn parse_epoch_int(s: &[u8], missing: &str, invalid: &str) -> (r: std::result::Result<i32, String>)
    ensures
        match epoch_int(s@, missing@, invalid@) {
            Ok(n) => r matches Ok(v) && v == n,
            Err(e) => r matches Err(m) && m@ == e,
        },
{
    if s.len() == 0 {
        return Err(missing.to_owned());
    }
    match parse_i64(s) {
        Some(n) => if -0x8000_0000 <= n && n <= 0x7fff_ffff {
            Ok(n as i32)
        } else {
            Err(complain(invalid, s))
        },
        None => Err(complain(invalid, s)),
    }
}

/// What an epoch line says: the flag, the number of records, and the time, which
/// is given for the flags 0 and 1.
pub open spec fn epoch_line_fields(line: Seq<u8>) -> std::result::Result<
    (int, int, GpsTime),
    Seq<char>,
> {
    let flag = epoch_int(
        trimmed(cols(line, 31, 32)),
        "rinex: missing epoch flag"@,
        "rinex: invalid epoch flag "@,
    );
    let count = epoch_int(
        trimmed(cols(line, 32, 35)),
        "rinex: missing epoch record count"@,
        "rinex: invalid epoch record count "@,
    );
    match (flag, count) {
        (Err(e), _) => Err(e),
        (_, Err(e)) => Err(e),
        (Ok(f), Ok(n)) => if n < 0 {
            Err(complaint("rinex: invalid epoch record count "@, trimmed(cols(line, 32, 35))))
        } else if f == 0 || f == 1 {
            match rinex_time(
                trimmed(cols(line, 2, 6)),
                trimmed(cols(line, 7, 9)),
                trimmed(cols(line, 10, 12)),
                trimmed(cols(line, 13, 15)),
                trimmed(cols(line, 16, 18)),
                trimmed(cols(line, 19, 29)),
            ) {
                Ok(t) => Ok((f, n, t)),
                Err(e) => Err(e),
            }
        } else {
            Ok((f, n, GpsTime(0)))
        },
    }
}

/// Reads an epoch line.
pub fn parse_epoch_line(line: &[u8]) -> (r: std::result::Result<(i32, usize, GpsTime), String>)
    ensures
        match epoch_line_fields(line@) {
            Ok((f, n, t)) => r matches Ok(x) && x.0 == f && x.1 == n && x.2 == t && t.0 * 100
                - 1_000_000_000 <= i64::MAX && i64::MIN <= t.0 * 100 + 1_000_000_000,
            Err(e) => r matches Err(m) && m@ == e,
        },
{
    let flag: i32 = match parse_epoch_int(
        trim(line_cols(line, 31, 32)),
        "rinex: missing epoch flag",
        "rinex: invalid epoch flag ",
    ) {
        Ok(n) => n,
        Err(e) => return Err(e),
    };
    let count_text = trim(line_cols(line, 32, 35));
    let n: i32 = match parse_epoch_int(
        count_text,
        "rinex: missing epoch record count",
        "rinex: invalid epoch record count ",
    ) {
        Ok(n) => n,
        Err(e) => return Err(e),
    };
    if n < 0 {
        return Err(complain("rinex: invalid epoch record count ", count_text));
    }
    let mut t = GpsTime(0);
    if flag == 0 || flag == 1 {
        let year = trim(line_cols(line, 2, 6));
        proof {
            crate::columns::lemma_trim_range(cols(line@, 2, 6));
        }
        t =
        match parse_rinex_time(
            year,
            trim(line_cols(line, 7, 9)),
            trim(line_cols(line, 10, 12)),
            trim(line_cols(line, 13, 15)),
            trim(line_cols(line, 16, 18)),
            trim(line_cols(line, 19, 29)),
        ) {
            Ok(t) => t,
            Err(e) => return Err(e),
        };
    }
    Ok((flag, n as usize, t))
}

/// The seconds by which GPS time is ahead of UTC.
pub open spec fn leap_of(m: MetadataView<Reading>) -> int {
    match m.leap_seconds {
        Some(n) => n as int,
        None => DEFAULT_GPS_UTC_SECONDS as int,
    }
}

/// The seconds by which GPS time is ahead of UTC.
pub fn gps_utc_seconds(meta: &Metadata<Reading>) -> (r: i64)
    ensures
        r == leap_of(meta@),
{
    match meta.leap_seconds {
        Some(v) => v as i64,
        None => DEFAULT_GPS_UTC_SECONDS as i64,
    }
}

/// A time of a file in GPS time.
pub open spec fn in_gps_time(t: int, time_system: Seq<u8>, leap: int) -> int {
    if time_system == utf8("GLO"@) || time_system == utf8("UTC"@) {
        t + leap * 10_000_000
    } else if time_system == utf8("BDT"@) {
        t + BDT_GPS_OFFSET_SECONDS * 10_000_000
    } else {
        t
    }
}

/// Turns a time of a file into GPS time.
pub fn file_to_gps_time(t: GpsTime, time_system: &[u8], leap_seconds: i64) -> (r: GpsTime)
    requires
        -32768 <= leap_seconds <= 32767,
        i64::MIN <= t.0 - 400_000_000_000,
        t.0 + 400_000_000_000 <= i64::MAX,
    ensures
        r.0 == in_gps_time(t.0 as int, time_system@, leap_seconds as int),
{
    if label_is(time_system, "GLO") || label_is(time_system, "UTC") {
        GpsTime(t.0 + leap_seconds * 10_000_000)
    } else if label_is(time_system, "BDT") {
        GpsTime(t.0 + BDT_GPS_OFFSET_SECONDS * 10_000_000)
    } else {
        t
    }
}

// ---- the line of a satellite ----

/// An observation whose numbers are places in the file.
pub type ReadObservation = SignalObservation<Reading, Reading>;

/// The digit in a column of a line.
pub open spec fn digit_at(line: Seq<u8>, i: int) -> Option<u8> {
    if i < line.len() && is_digit(line[i]) {
        Some((line[i] - 0x30) as u8)
    } else {
        None
    }
}

/// The number in the fourteen columns from `start` on.
pub open spec fn number_at(line: Seq<u8>, start: int, base: int) -> Option<Reading> {
    let x = cols(line, start, start + 14);
    if is_float_text(trimmed(x)) {
        Some(reading(base + start, trim_range(x)))
    } else {
        None
    }
}

/// The signal strength in dB-Hz that a strength indicator stands for.
pub open spec fn strength_of(ssi: int) -> int {
    if ssi <= 1 {
        6
    } else if ssi >= 9 {
        57
    } else {
        ssi * 6 + 3
    }
}

/// The signal strength in dB-Hz that a strength indicator stands for.
pub fn cn0_from_ssi(ssi: u8) -> (r: u8)
    ensures
        r == strength_of(ssi as int),
{
    if ssi <= 1 {
        6
    } else if ssi >= 9 {
        57
    } else {
        ssi * 6 + 3
    }
}

/// Values with a strength indicator: it counts where no strength is known yet.
pub open spec fn with_ssi(v: SignalValues<Reading, Reading>, ssi: Option<u8>) -> SignalValues<
    Reading,
    Reading,
> {
    match ssi {
        Some(n) if n != 0 && v.cn0 is None => SignalValues {
            cn0: Some(Reading::Whole(strength_of(n as int) as u8)),
            ..v
        },
        _ => v,
    }
}

/// Values with the loss-of-lock indicator of a field.
pub open spec fn with_indicator(
    v: SignalValues<Reading, Reading>,
    lli: Option<u8>,
) -> SignalValues<Reading, Reading> {
    match lli {
        Some(n) => with_lli(v, n),
        None => v,
    }
}

/// Values with the field of an observation type that begins at `start`.
pub open spec fn with_field(
    v: SignalValues<Reading, Reading>,
    typ: u8,
    line: Seq<u8>,
    start: int,
    base: int,
) -> SignalValues<Reading, Reading> {
    let val = number_at(line, start, base);
    let lli = digit_at(line, start + 14);
    let ssi = digit_at(line, start + 15);
    if typ == TYPE_CODE {
        with_ssi(SignalValues { pr: value_or(v.pr, val), ..v }, ssi)
    } else if typ == TYPE_PHASE {
        with_ssi(with_indicator(SignalValues { cp: value_or(v.cp, val), ..v }, lli), ssi)
    } else if typ == TYPE_DOPPLER {
        SignalValues { dop: value_or(v.dop, val), ..v }
    } else if typ == TYPE_SIGNAL_STRENGTH {
        SignalValues { cn0: value_or(v.cn0, val), ..v }
    } else {
        v
    }
}

fn indicator_at(line: &[u8], start: usize, k: usize) -> (r: Option<u8>)
    requires
        start <= line@.len(),
    ensures
        r == digit_at(line@, start + k),
{
    if line.len() - start > k {
        let b: u8 = line[start + k];
        if 0x30 <= b && b <= 0x39 {
            return Some(b - 0x30);
        }
    }
    None
}

fn add_ssi(v: &mut SignalValues<Reading, Reading>, ssi: Option<u8>)
    ensures
        *final(v) == with_ssi(*old(v), ssi),
{
    if let Some(n) = ssi {
        if n != 0 && v.cn0.is_none() {
            v.cn0 = Some(Reading::Whole(cn0_from_ssi(n)));
        }
    }
}

/// The columns from `start` on, `w` of them.
fn field_cols(line: &[u8], start: usize, w: usize) -> (r: &[u8])
    requires
        start <= line@.len(),
    ensures
        r@ == cols(line@, start as int, start + w),
{
    if line.len() - start < w {
        slice_subrange(line, start, line.len())
    } else {
        slice_subrange(line, start, start + w)
    }
}

/// Reads the field of an observation type that begins at `start`.
pub fn add_rinex_field(
    v: &mut SignalValues<Reading, Reading>,
    typ: u8,
    line: &[u8],
    start: usize,
    base: usize,
)
    requires
        start <= line@.len(),
        base + line@.len() <= usize::MAX,
    ensures
        *final(v) == with_field(*old(v), typ, line@, start as int, base as int),
{
    let x = field_cols(line, start, 14);
    let (a, b) = find_trimmed(x);
    let val = if is_float(slice_subrange(x, a, b)) {
        Some(Reading::Text(base + start + a, base + start + b))
    } else {
        None
    };
    assert(val == number_at(line@, start as int, base as int));
    let ssi = indicator_at(line, start, 15);
    if typ == TYPE_CODE {
        if val.is_some() {
            v.pr = val;
        }
        add_ssi(v, ssi);
    } else if typ == TYPE_PHASE {
        if val.is_some() {
            v.cp = val;
        }
        if let Some(lli) = indicator_at(line, start, 14) {
            v.set_lli(lli);
        }
        add_ssi(v, ssi);
    } else if typ == TYPE_DOPPLER {
        if val.is_some() {
            v.dop = val;
        }
    } else if typ == TYPE_SIGNAL_STRENGTH {
        if val.is_some() {
            v.cn0 = val;
        }
    }
}

/// Where the observation of a signal stands; the number of observations where
/// there is none.
pub open spec fn signal_index(os: Seq<ReadObservation>, sig: SigId) -> int
    decreases os.len(),
{
    if os.len() == 0 || os[0].sig == sig {
        0
    } else {
        1 + signal_index(os.skip(1), sig)
    }
}

pub proof fn lemma_signal_index(os: Seq<ReadObservation>, sig: SigId, i: int)
    requires
        0 <= i <= os.len(),
        forall|j: int| 0 <= j < i ==> (#[trigger] os[j]).sig != sig,
        i < os.len() ==> os[i].sig == sig,
    ensures
        signal_index(os, sig) == i,
    decreases os.len(),
{
    if i > 0 {
        assert(os[0].sig != sig);
        lemma_signal_index(os.skip(1), sig, i - 1);
    }
}

/// An observation of which nothing is known but the frequency channel.
pub open spec fn new_observation(
    t: GpsTime,
    sat: SatId,
    sig: SigId,
    frq: Option<i8>,
) -> ReadObservation {
    SignalObservation { t, sat, sig, v: SignalValues { frq, ..no_values() } }
}

/// The observations in the first `n` fields of a line: one for each signal that
/// has a field which is not blank, in the order of the fields.
pub open spec fn line_observations(
    line: Seq<u8>,
    base: int,
    codes: Seq<ObsCode>,
    n: int,
    t: GpsTime,
    sat: SatId,
    frq: Option<i8>,
) -> Seq<ReadObservation>
    decreases n,
{
    if n <= 0 {
        Seq::empty()
    } else {
        let before = line_observations(line, base, codes, n - 1, t, sat, frq);
        let start = 3 + 16 * (n - 1);
        if trimmed(cols(line, start, start + 16)).len() == 0 {
            before
        } else {
            let code = codes[n - 1];
            let sig = code_signal(code);
            let k = signal_index(before, sig);
            if k < before.len() {
                before.update(
                    k,
                    SignalObservation {
                        v: with_field(before[k].v, code.0@[0], line, start, base),
                        ..before[k]
                    },
                )
            } else {
                let o = new_observation(t, sat, sig, frq);
                before.push(
                    SignalObservation {
                        v: with_field(o.v, code.0@[0], line, start, base),
                        ..o
                    },
                )
            }
        }
    }
}

/// Behind the end of a line nothing is observed.
proof fn lemma_line_over(
    line: Seq<u8>,
    base: int,
    codes: Seq<ObsCode>,
    i: int,
    n: int,
    t: GpsTime,
    sat: SatId,
    frq: Option<i8>,
)
    requires
        0 <= i <= n,
        3 + 16 * i >= line.len(),
    ensures
        line_observations(line, base, codes, n, t, sat, frq) == line_observations(
            line,
            base,
            codes,
            i,
            t,
            sat,
            frq,
        ),
    decreases n - i,
{
    if i < n {
        lemma_line_over(line, base, codes, i, n - 1, t, sat, frq);
        let start = 3 + 16 * (n - 1);
        assert(cols(line, start, start + 16) =~= Seq::empty());
    }
}

/// The first three columns of a line.
pub open spec fn first_three(line: Seq<u8>) -> Seq<u8> {
    (line + repeated(0x20, 3)).take(3)
}

/// The observations in the line of a satellite.
pub open spec fn sat_line(
    line: Seq<u8>,
    base: int,
    t: GpsTime,
    h: ObsHeaderView,
) -> std::result::Result<Seq<ReadObservation>, Seq<char>> {
    let id = first_three(line);
    if sat_valid(id) {
        let sat = SatId([id[0], id[1], id[2]]);
        let codes = codes_for(h.codes, sat);
        Ok(
            line_observations(
                line,
                base,
                codes,
                codes.len() as int,
                t,
                sat,
                fx_value(h.frq, sat_number(sat)),
            ),
        )
    } else {
        Err(complaint("rinex: invalid satellite "@, id))
    }
}

fn column_or_blank(line: &[u8], i: usize) -> (r: u8)
    requires
        i < 3,
    ensures
        r == first_three(line@)[i as int],
{
    if i < line.len() {
        line[i]
    } else {
        0x20
    }
}

/// Reads the line of a satellite.
pub fn parse_satellite_observation_line(
    t: GpsTime,
    line: &[u8],
    base: usize,
    h: &ObsHeader,
    out: &mut Vec<ReadObservation>,
) -> (r: std::result::Result<(), String>)
    requires
        h.wf(),
        base + line@.len() <= usize::MAX,
    ensures
        match sat_line(line@, base as int, t, h@) {
            Ok(os) => r is Ok && final(out)@ == old(out)@ + os,
            Err(e) => r matches Err(m) && m@ == e,
        },
{
    let sat = SatId(
        [column_or_blank(line, 0), column_or_blank(line, 1), column_or_blank(line, 2)],
    );
    let ghost id = first_three(line@);
    assert(sat.0@ =~= id);
    assert(sat.0 =~= [id[0], id[1], id[2]]);
    if !sat.is_valid() {
        return Err(complain("rinex: invalid satellite ", sat.0.as_slice()));
    }
    let k: usize = system_index(sat.system());
    let frq = fx_get(&h.frq, sat_code(sat));
    let ghost codes = codes_for(h@.codes, sat);
    assert(codes == h.codes@[k as int]@);
    let n: usize = h.codes[k].len();
    let mut os: Vec<ReadObservation> = Vec::new();
    let mut i: usize = 0;
    let mut start: usize = 3;
    assert(os@ =~= Seq::empty());
    while i < n && start < line.len()
        invariant
            i <= n,
            k < h.codes@.len(),
            codes == h.codes@[k as int]@,
            n == codes.len(),
            start == 3 + 16 * i || (start == line@.len() && start <= 3 + 16 * i),
            base + line@.len() <= usize::MAX,
            os@ == line_observations(line@, base as int, codes, i as int, t, sat, frq),
        decreases n - i,
    {
        let field = field_cols(line, start, 16);
        if trim(field).len() > 0 {
            let code = h.codes[k][i];
            let sig = code.signal();
            let mut j: usize = 0;
            while j < os.len() && !(os[j].sig == sig)
                invariant
                    j <= os@.len(),
                    forall|q: int| 0 <= q < j ==> (#[trigger] os@[q]).sig != sig,
                decreases os@.len() - j,
            {
                j += 1;
            }
            proof {
                lemma_signal_index(os@, sig, j as int);
            }
            if j == os.len() {
                let mut v: SignalValues<Reading, Reading> = SignalValues::default();
                v.frq = frq;
                add_rinex_field(&mut v, code.obs_type(), line, start, base);
                os.push(SignalObservation { t, sat, sig, v });
            } else {
                let mut o = os[j];
                add_rinex_field(&mut o.v, code.obs_type(), line, start, base);
                os.set(j, o);
            }
        }
        i += 1;
        if line.len() - start > 16 {
            start += 16;
        } else {
            start = line.len();
        }
    }
    proof {
        if i < n {
            lemma_line_over(line@, base as int, codes, i as int, n as int, t, sat, frq);
        }
    }
    let ghost before = out@;
    let mut j: usize = 0;
    assert(out@ =~= before + os@.take(0));
    while j < os.len()
        invariant
            j <= os@.len(),
            out@ == before + os@.take(j as int),
        decreases os@.len() - j,
    {
        out.push(os[j]);
        j += 1;
        assert(os@.take(j as int) =~= os@.take(j - 1).push(os@[j - 1]));
        assert(out@ =~= before + os@.take(j as int));
    }
    assert(os@.take(j as int) =~= os@);
    Ok(())
}

// ---- the epochs ----

/// Where the lines after `n` lines from `pos` on begin, where there are as many.
pub open spec fn skip_lines(d: Seq<u8>, pos: int, n: int) -> Option<int>
    decreases n,
{
    if n <= 0 {
        Some(pos)
    } else if pos >= d.len() {
        None
    } else {
        skip_lines(d, after_line(d, pos), n - 1)
    }
}

proof fn lemma_skip_lines(d: Seq<u8>, pos: int, n: int)
    requires
        0 <= pos <= d.len(),
    ensures
        skip_lines(d, pos, n) matches Some(p) ==> pos <= p <= d.len(),
    decreases n,
{
    if n > 0 && pos < d.len() {
        lemma_line(d, pos);
        lemma_skip_lines(d, after_line(d, pos), n - 1);
    }
}

/// What `n` lines of satellites from `pos` on add to observations, and where the
/// lines after them begin.
pub open spec fn sat_lines(
    d: Seq<u8>,
    pos: int,
    n: int,
    t: GpsTime,
    h: ObsHeaderView,
    os: Seq<ReadObservation>,
) -> std::result::Result<(int, Seq<ReadObservation>), Seq<char>>
    decreases n,
{
    if n <= 0 {
        Ok((pos, os))
    } else if pos >= d.len() {
        Err("rinex: unexpected EOF in epoch"@)
    } else {
        match sat_line(line_at(d, pos), pos, t, h) {
            Err(e) => Err(e),
            Ok(more) => sat_lines(d, after_line(d, pos), n - 1, t, h, os + more),
        }
    }
}

proof fn lemma_sat_lines(
    d: Seq<u8>,
    pos: int,
    n: int,
    t: GpsTime,
    h: ObsHeaderView,
    os: Seq<ReadObservation>,
)
    requires
        0 <= pos <= d.len(),
    ensures
        sat_lines(d, pos, n, t, h, os) matches Ok(x) ==> pos <= x.0 <= d.len(),
    decreases n,
{
    if n > 0 && pos < d.len() {
        lemma_line(d, pos);
        match sat_line(line_at(d, pos), pos, t, h) {
            Err(e) => {},
            Ok(more) => {
                lemma_sat_lines(d, after_line(d, pos), n - 1, t, h, os + more);
            },
        }
    }
}

/// What the epoch that begins at `pos` adds to observations, and where the lines
/// after it begin. Events are passed over.
pub open spec fn one_epoch(
    d: Seq<u8>,
    pos: int,
    h: ObsHeaderView,
    os: Seq<ReadObservation>,
) -> std::result::Result<(int, Seq<ReadObservation>), Seq<char>> {
    let line = line_at(d, pos);
    let next = after_line(d, pos);
    if trimmed(line).len() == 0 {
        Ok((next, os))
    } else if line[0] != 0x3e {
        Err(complaint("rinex: expected epoch line, got "@, line))
    } else {
        match epoch_line_fields(line) {
            Err(e) => Err(e),
            Ok((flag, n, t)) => if flag == 0 || flag == 1 {
                let gps = GpsTime(
                    in_gps_time(t.0 as int, h.time_system, leap_of(h.meta)) as i64,
                );
                sat_lines(d, next, n, gps, h, os)
            } else if flag == 2 || flag == 3 || flag == 5 {
                match skip_lines(d, next, n) {
                    Some(p) => Ok((p, os)),
                    None => Err("rinex: unexpected EOF in event records"@),
                }
            } else if flag == 4 {
                Err("rinex: unsupported mid-file header update"@)
            } else if flag == 6 {
                match skip_lines(d, next, n) {
                    Some(p) => Ok((p, os)),
                    None => Err("rinex: unexpected EOF in cycle-slip records"@),
                }
            } else {
                Err("rinex: unsupported epoch flag "@ + as_chars(signed_dec(flag)))
            },
        }
    }
}

pub proof fn lemma_one_epoch(
    d: Seq<u8>,
    pos: int,
    h: ObsHeaderView,
    os: Seq<ReadObservation>,
)
    requires
        0 <= pos < d.len(),
    ensures
        one_epoch(d, pos, h, os) matches Ok(x) ==> pos < x.0 <= d.len(),
{
    lemma_line(d, pos);
    let next = after_line(d, pos);
    match epoch_line_fields(line_at(d, pos)) {
        Err(e) => {},
        Ok((flag, n, t)) => {
            let gps = GpsTime(in_gps_time(t.0 as int, h.time_system, leap_of(h.meta)) as i64);
            lemma_sat_lines(d, next, n, gps, h, os);
            lemma_skip_lines(d, next, n);
        },
    }
}

/// The observations in the epochs from `pos` on, behind `os`.
pub open spec fn epochs_from(
    d: Seq<u8>,
    pos: int,
    h: ObsHeaderView,
    os: Seq<ReadObservation>,
) -> std::result::Result<Seq<ReadObservation>, Seq<char>>
    decreases d.len() - pos,
{
    if pos < 0 || pos >= d.len() {
        Ok(os)
    } else {
        proof {
            lemma_one_epoch(d, pos, h, os);
        }
        match one_epoch(d, pos, h, os) {
            Err(e) => Err(e),
            Ok(x) => epochs_from(d, x.0, h, x.1),
        }
    }
}

fn skip_records(d: &[u8], pos: usize, n: usize) -> (r: Option<usize>)
    requires
        pos <= d@.len(),
    ensures
        match skip_lines(d@, pos as int, n as int) {
            Some(p) => r matches Some(q) && p == q && q <= d@.len(),
            None => r is None,
        },
{
    let mut p: usize = pos;
    let mut left: usize = n;
    while left > 0
        invariant
            p <= d@.len(),
            skip_lines(d@, pos as int, n as int) == skip_lines(d@, p as int, left as int),
        decreases left,
    {
        if p >= d.len() {
            return None;
        }
        p = read_line(d, p).1;
        left -= 1;
    }
    Some(p)
}

fn read_satellites(
    d: &[u8],
    pos: usize,
    n: usize,
    t: GpsTime,
    h: &ObsHeader,
    out: &mut Vec<ReadObservation>,
) -> (r: std::result::Result<usize, String>)
    requires
        pos <= d@.len(),
        h.wf(),
    ensures
        match sat_lines(d@, pos as int, n as int, t, h@, old(out)@) {
            Ok(x) => r matches Ok(q) && q == x.0 && q <= d@.len() && final(out)@ == x.1,
            Err(e) => r matches Err(m) && m@ == e,
        },
{
    let mut p: usize = pos;
    let mut left: usize = n;
    while left > 0
        invariant
            p <= d@.len(),
            h.wf(),
            sat_lines(d@, pos as int, n as int, t, h@, old(out)@) == sat_lines(
                d@,
                p as int,
                left as int,
                t,
                h@,
                out@,
            ),
        decreases left,
    {
        if p >= d.len() {
            return Err("rinex: unexpected EOF in epoch".to_owned());
        }
        let (line, next) = read_line(d, p);
        proof {
            lemma_line_inside(d@, p as int);
        }
        match parse_satellite_observation_line(t, line, p, h, out) {
            Err(e) => return Err(e),
            Ok(_) => {},
        }
        p = next;
        left -= 1;
    }
    Ok(p)
}

fn flag_text(flag: i32) -> (r: String)
    ensures
        r@ == "rinex: unsupported epoch flag "@ + as_chars(signed_dec(flag as int)),
{
    let digits = signed_bytes(flag as i64);
    proof {
        lemma_dec_value(flag as nat);
        lemma_dec_value((-flag) as nat);
        assert(is_ascii(digits@));
    }
    "rinex: unsupported epoch flag ".to_owned().concat(ascii_text(digits.as_slice()).as_str())
}

/// Reads the epoch that begins at `pos`; gives where the lines after it begin.
fn read_epoch(d: &[u8], pos: usize, h: &ObsHeader, out: &mut Vec<ReadObservation>) -> (r:
    std::result::Result<usize, String>)
    requires
        pos < d@.len(),
        h.wf(),
    ensures
        match one_epoch(d@, pos as int, h@, old(out)@) {
            Ok(x) => r matches Ok(q) && q == x.0 && q <= d@.len() && final(out)@ == x.1,
            Err(e) => r matches Err(m) && m@ == e,
        },
{
    let (line, next) = read_line(d, pos);
    if trim(line).len() == 0 {
        return Ok(next);
    }
    proof {
        crate::columns::lemma_trim_range(line@);
    }
    if line[0] != 0x3e {
        return Err(complain("rinex: expected epoch line, got ", line));
    }
    let (flag, count, t) = match parse_epoch_line(line) {
        Ok(x) => x,
        Err(e) => return Err(e),
    };
    match flag {
        0 | 1 => {
            let gps = file_to_gps_time(t, h.time_system.as_slice(), gps_utc_seconds(&h.meta));
            read_satellites(d, next, count, gps, h, out)
        },
        2 | 3 | 5 => match skip_records(d, next, count) {
            Some(p) => Ok(p),
            None => Err("rinex: unexpected EOF in event records".to_owned()),
        },
        4 => Err("rinex: unsupported mid-file header update".to_owned()),
        6 => match skip_records(d, next, count) {
            Some(p) => Ok(p),
            None => Err("rinex: unexpected EOF in cycle-slip records".to_owned()),
        },
        _ => Err(flag_text(flag)),
    }
}

/// Reads the epochs in the text of a file from `pos` on.
pub fn read_epochs(text: &str, pos: usize, h: &ObsHeader) -> (r: std::result::Result<
    Vec<ReadObservation>,
    String,
>)
    requires
        pos <= utf8(text@).len(),
        h.wf(),
    ensures
        match epochs_from(utf8(text@), pos as int, h@, Seq::empty()) {
            Ok(os) => r matches Ok(v) && v@ == os,
            Err(e) => r matches Err(m) && m@ == e,
        },
{
    read_epoch_lines(text.as_bytes(), pos, h)
}

fn read_epoch_lines(d: &[u8], pos: usize, h: &ObsHeader) -> (r: std::result::Result<
    Vec<ReadObservation>,
    String,
>)
    requires
        pos <= d@.len(),
        h.wf(),
    ensures
        match epochs_from(d@, pos as int, h@, Seq::empty()) {
            Ok(os) => r matches Ok(v) && v@ == os,
            Err(e) => r matches Err(m) && m@ == e,
        },
{
    let mut out: Vec<ReadObservation> = Vec::new();
    let mut p: usize = pos;
    assert(out@ =~= Seq::empty());
    while p < d.len()
        invariant
            p <= d@.len(),
            h.wf(),
            epochs_from(d@, pos as int, h@, Seq::empty()) == epochs_from(d@, p as int, h@, out@),
        decreases d@.len() - p,
    {
        proof {
            lemma_one_epoch(d@, p as int, h@, out@);
        }
        match read_epoch(d, p, h, &mut out) {
            Ok(next) => {
                p = next;
            },
            Err(e) => return Err(e),
        }
    }
    Ok(out)
}

/// Turns the loss-of-lock flag of each observation into `arc`, by the same
/// accumulator that the converters feed.
pub fn accumulate_arc<F: Copy, G: Copy>(obs: &[SignalObservation<F, G>]) -> (r: Vec<
    SignalObservation<F, G>,
>)
    ensures
        r@ == accumulated(obs@),
{
    let start: Collector<F, G> = Collector::new();
    let mut acc = LossOfLockSink::new(start);
    let ghost pre = acc;
    let mut i: usize = 0;
    assert(obs@.take(0) =~= Seq::empty());
    while i < obs.len()
        invariant
            i <= obs@.len(),
            received::<F, G, LossOfLockSink<Collector<F, G>>>(
                pre,
                obs@.take(i as int),
                acc,
                Ok(()),
            ),
        decreases obs@.len() - i,
    {
        let ghost mid = acc;
        let done = acc.observation(&obs[i]);
        proof {
            assert(done == Ok::<(), Error>(()));
            lemma_received_push(pre, obs@.take(i as int), mid, obs@[i as int], acc, done);
            assert(obs@.take(i + 1) =~= obs@.take(i as int).push(obs@[i as int]));
        }
        i += 1;
    }
    proof {
        assert(obs@.take(i as int) =~= obs@);
        lemma_accumulates(pre, obs@, acc, Ok(()));
        lemma_collected(pre.wrapped(), accumulated(obs@), acc.wrapped(), Ok(()));
        assert(start.obs@ + accumulated(obs@) =~= accumulated(obs@));
    }
    acc.into_inner().obs
}

/// What the text of a file holds: the header facts and the observations.
pub open spec fn file_contents(d: Seq<u8>) -> std::result::Result<
    (MetadataView<Reading>, Seq<ReadObservation>),
    Seq<char>,
> {
    match header_from(d, 0, no_header()) {
        Err(e) => Err(e),
        Ok((h, pos)) => match epochs_from(d, pos, h, Seq::empty()) {
            Err(e) => Err(e),
            Ok(os) => Ok((h.meta, accumulated(os))),
        },
    }
}

/// The text of a file, in which its lines and their columns are counted: bytes that
/// are not UTF-8 have become replacement characters. No such bytes reach over the end
/// of a line, so that the lines are those of the file.
pub open spec fn readable(d: Seq<u8>) -> Seq<u8> {
    utf8(lossy_text(d))
}

/// The text of a file, in which the numbers that are read from it stand.
pub fn readable_text(d: &[u8]) -> (r: String)
    ensures
        utf8(r@) == readable(d@),
        valid_utf8(d@) ==> utf8(r@) == d@,
{
    text_of(d)
}

/// Reads a RINEX observation file into the obsj model. The numbers stand in the text
/// of the file, which is the file itself where that is UTF-8.
pub fn read_observation_file(d: &[u8]) -> (r: Result<(Metadata<Reading>, Vec<ReadObservation>)>)
    ensures
        match file_contents(readable(d@)) {
            Ok(x) => r matches Ok(y) && y.0@ == x.0 && y.1@ == x.1,
            Err(e) => r matches Err(Error::Rinex(m)) && m@ == e,
        },
        valid_utf8(d@) ==> readable(d@) == d@,
{
    let text = readable_text(d);
    let (h, pos) = match read_header(text.as_str()) {
        Ok(x) => x,
        Err(e) => return Err(Error::Rinex(e)),
    };
    let obs = match read_epochs(text.as_str(), pos, &h) {
        Ok(x) => x,
        Err(e) => return Err(Error::Rinex(e)),
    };
    let with_arc = accumulate_arc(obs.as_slice());
    Ok((h.meta, with_arc))
}

} // verus!
