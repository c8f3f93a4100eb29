//! The command line and the output of the comparison of two observation files.
//!
//! Each input's format is given by an explicit option, never inferred from the
//! file name.

use crate::cli::ObsFormat;
use crate::columns::{is_float, is_float_text};
use crate::diff::{same_text, DiffRecord, SignalDiff};
use crate::metadata::{texts, Metadata};
use crate::obs::{civil_label, id_text};
use crate::rinex_backend::{
    backend_of, is_name, lowercase, lowercase_text, named, parse_rinex_backend, RinexBackend,
};
use crate::rinex_write::{civil_at, signed_bytes, signed_dec};
use crate::text::{push_bytes, quoted_text, same_bytes, utf8, with_quoted};
use vstd::prelude::*;
use vstd::slice::slice_subrange;

verus! {

// ---- the command line ----

/// What a command line gives. Tolerances are kept as the text of a number.
pub struct DiffArguments {
    pub pr: Option<String>,
    pub cp: Option<String>,
    pub dop: Option<String>,
    pub cn0: Option<String>,
    pub approx_pos: Option<String>,
    pub antenna_delta: Option<String>,
    pub format: Option<String>,
    pub a_format: Option<String>,
    pub b_format: Option<String>,
    pub backend: Option<String>,
    pub ignore_blank_phase: bool,
    pub ignore_marker: bool,
    pub files: Vec<String>,
}

/// The contents of [`DiffArguments`].
#[verifier::ext_equal]
pub struct DiffArgumentsView {
    pub pr: Option<Seq<char>>,
    pub cp: Option<Seq<char>>,
    pub dop: Option<Seq<char>>,
    pub cn0: Option<Seq<char>>,
    pub approx_pos: Option<Seq<char>>,
    pub antenna_delta: Option<Seq<char>>,
    pub format: Option<Seq<char>>,
    pub a_format: Option<Seq<char>>,
    pub b_format: Option<Seq<char>>,
    pub backend: Option<Seq<char>>,
    pub ignore_blank_phase: bool,
    pub ignore_marker: bool,
    pub files: Seq<Seq<char>>,
}

/// The contents of an optional string.
pub open spec fn text(s: Option<String>) -> Option<Seq<char>> {
    match s {
        Some(x) => Some(x@),
        None => None,
    }
}

impl View for DiffArguments {
    type V = DiffArgumentsView;

    open spec fn view(&self) -> DiffArgumentsView {
        DiffArgumentsView {
            pr: text(self.pr),
            cp: text(self.cp),
            dop: text(self.dop),
            cn0: text(self.cn0),
            approx_pos: text(self.approx_pos),
            antenna_delta: text(self.antenna_delta),
            format: text(self.format),
            a_format: text(self.a_format),
            b_format: text(self.b_format),
            backend: text(self.backend),
            ignore_blank_phase: self.ignore_blank_phase,
            ignore_marker: self.ignore_marker,
            files: texts(self.files@),
        }
    }
}

/// Arguments of which nothing is given.
pub open spec fn no_arguments() -> DiffArgumentsView {
    DiffArgumentsView {
        pr: None,
        cp: None,
        dop: None,
        cn0: None,
        approx_pos: None,
        antenna_delta: None,
        format: None,
        a_format: None,
        b_format: None,
        backend: None,
        ignore_blank_phase: false,
        ignore_marker: false,
        files: Seq::empty(),
    }
}

/// A text without the hyphens in front.
pub open spec fn without_hyphens(s: Seq<u8>) -> Seq<u8>
    decreases s.len(),
{
    if s.len() > 0 && s[0] == 0x2d {
        without_hyphens(s.skip(1))
    } else {
        s
    }
}

/// What becomes of arguments after one more option.
pub enum OptionStep {
    /// The option was taken in; the number of arguments that it takes.
    Taken(DiffArgumentsView, int),
    /// The usage is asked for.
    Help,
    /// Something is wrong.
    Wrong(Seq<char>),
}

/// What an option that takes a number does, by its value.
pub open spec fn number_step(
    a: Seq<char>,
    value: Option<Seq<char>>,
    taken: DiffArgumentsView,
) -> OptionStep {
    match value {
        None => OptionStep::Wrong("missing value for "@ + a),
        Some(v) => if is_float_text(utf8(v)) {
            OptionStep::Taken(taken, 2)
        } else {
            OptionStep::Wrong("invalid number for "@ + a)
        },
    }
}

/// What an option that takes a text does, by its value.
pub open spec fn text_step(
    a: Seq<char>,
    value: Option<Seq<char>>,
    taken: DiffArgumentsView,
) -> OptionStep {
    match value {
        None => OptionStep::Wrong("missing value for "@ + a),
        Some(_) => OptionStep::Taken(taken, 2),
    }
}

/// What an argument does, by the one behind it.
pub open spec fn option_step(
    d: DiffArgumentsView,
    a: Seq<char>,
    value: Option<Seq<char>>,
) -> OptionStep {
    let key = without_hyphens(utf8(a));
    if key == utf8("h"@) || key == utf8("help"@) {
        OptionStep::Help
    } else if key == utf8("pr-tol"@) {
        number_step(a, value, DiffArgumentsView { pr: value, ..d })
    } else if key == utf8("cp-tol"@) {
        number_step(a, value, DiffArgumentsView { cp: value, ..d })
    } else if key == utf8("do-tol"@) {
        number_step(a, value, DiffArgumentsView { dop: value, ..d })
    } else if key == utf8("cn0-tol"@) {
        number_step(a, value, DiffArgumentsView { cn0: value, ..d })
    } else if key == utf8("approx-pos-tol"@) {
        number_step(a, value, DiffArgumentsView { approx_pos: value, ..d })
    } else if key == utf8("antenna-delta-tol"@) {
        number_step(a, value, DiffArgumentsView { antenna_delta: value, ..d })
    } else if key == utf8("format"@) {
        text_step(a, value, DiffArgumentsView { format: value, ..d })
    } else if key == utf8("a-format"@) {
        text_step(a, value, DiffArgumentsView { a_format: value, ..d })
    } else if key == utf8("b-format"@) {
        text_step(a, value, DiffArgumentsView { b_format: value, ..d })
    } else if key == utf8("rinex-backend"@) {
        text_step(a, value, DiffArgumentsView { backend: value, ..d })
    } else if key == utf8("ignore-blank-phase"@) {
        OptionStep::Taken(DiffArgumentsView { ignore_blank_phase: true, ..d }, 1)
    } else if key == utf8("ignore-marker"@) {
        OptionStep::Taken(DiffArgumentsView { ignore_marker: true, ..d }, 1)
    } else if utf8(a).len() > 0 && utf8(a)[0] == 0x2d && a != "-"@ {
        OptionStep::Wrong("unknown option "@ + a)
    } else {
        OptionStep::Taken(DiffArgumentsView { files: d.files.push(a), ..d }, 1)
    }
}

/// The argument at a place, if there is one.
pub open spec fn argument_at(args: Seq<Seq<char>>, i: int) -> Option<Seq<char>> {
    if 0 <= i < args.len() {
        Some(args[i])
    } else {
        None
    }
}

/// What the arguments from `i` on give: nothing where the usage is asked for.
pub open spec fn arguments_from(
    args: Seq<Seq<char>>,
    i: int,
    d: DiffArgumentsView,
) -> Result<Option<DiffArgumentsView>, Seq<char>>
    decreases args.len() - i,
{
    if i < 0 || i >= args.len() {
        Ok(Some(d))
    } else {
        match option_step(d, args[i], argument_at(args, i + 1)) {
            OptionStep::Help => Ok(None),
            OptionStep::Wrong(e) => Err(e),
            OptionStep::Taken(after, n) => if n > 0 {
                arguments_from(args, i + n, after)
            } else {
                Ok(Some(after))
            },
        }
    }
}

fn skip_hyphens(s: &[u8]) -> (r: &[u8])
    ensures
        r@ == without_hyphens(s@),
{
    let mut i: usize = 0;
    assert(s@.skip(0) =~= s@);
    while i < s.len() && s[i] == 0x2d
        invariant
            i <= s@.len(),
            without_hyphens(s@) == without_hyphens(s@.skip(i as int)),
        decreases s@.len() - i,
    {
        assert(s@.skip(i as int).skip(1) =~= s@.skip(i + 1));
        i += 1;
    }
    let r = slice_subrange(s, i, s.len());
    assert(r@ =~= s@.skip(i as int));
    r
}

/// What the command line does after an argument.
enum Taken {
    /// How many arguments were taken.
    Arguments(usize),
    Help,
}

fn key_is(key: &[u8], name: &str) -> (r: bool)
    ensures
        r == (key@ == utf8(name@)),
{
    same_bytes(key, name.as_bytes())
}

fn number_value(a: &str, value: Option<&String>) -> (r: Result<String, String>)
    ensures
        match value {
            None => r matches Err(m) && m@ == "missing value for "@ + a@,
            Some(v) => if is_float_text(utf8(v@)) {
                r matches Ok(x) && x@ == v@
            } else {
                r matches Err(m) && m@ == "invalid number for "@ + a@
            },
        },
{
    match value {
        None => Err("missing value for ".to_owned().concat(a)),
        Some(v) => if is_float(v.as_str().as_bytes()) {
            Ok(v.clone())
        } else {
            Err("invalid number for ".to_owned().concat(a))
        },
    }
}

fn text_value(a: &str, value: Option<&String>) -> (r: Result<String, String>)
    ensures
        match value {
            None => r matches Err(m) && m@ == "missing value for "@ + a@,
            Some(v) => r matches Ok(x) && x@ == v@,
        },
{
    match value {
        None => Err("missing value for ".to_owned().concat(a)),
        Some(v) => Ok(v.clone()),
    }
}

/// The contents of an optional reference to a string.
pub open spec fn ref_text(s: Option<&String>) -> Option<Seq<char>> {
    match s {
        Some(x) => Some(x@),
        None => None,
    }
}

fn take_number(slot: &mut Option<String>, a: &str, value: Option<&String>) -> (r: Result<
    Taken,
    String,
>)
    ensures
        match ref_text(value) {
            None => r matches Err(m) && m@ == "missing value for "@ + a@,
            Some(v) => if is_float_text(utf8(v)) {
                r matches Ok(Taken::Arguments(2)) && text(*final(slot)) == Some(v)
            } else {
                r matches Err(m) && m@ == "invalid number for "@ + a@
            },
        },
{
    match number_value(a, value) {
        Ok(v) => {
            *slot = Some(v);
            Ok(Taken::Arguments(2))
        },
        Err(e) => Err(e),
    }
}

fn take_text(slot: &mut Option<String>, a: &str, value: Option<&String>) -> (r: Result<
    Taken,
    String,
>)
    ensures
        match ref_text(value) {
            None => r matches Err(m) && m@ == "missing value for "@ + a@,
            Some(v) => r matches Ok(Taken::Arguments(2)) && text(*final(slot)) == Some(v),
        },
{
    match text_value(a, value) {
        Ok(v) => {
            *slot = Some(v);
            Ok(Taken::Arguments(2))
        },
        Err(e) => Err(e),
    }
}

spec fn takes(step: OptionStep, after: DiffArguments, r: Result<Taken, String>) -> bool {
    match step {
        OptionStep::Help => r matches Ok(Taken::Help),
        OptionStep::Wrong(e) => r matches Err(m) && m@ == e,
        OptionStep::Taken(d, n) => r matches Ok(Taken::Arguments(k)) && k == n && after@ == d,
    }
}

fn take_option(d: &mut DiffArguments, a: &String, value: Option<&String>) -> (r: Result<
    Taken,
    String,
>)
    ensures
        takes(option_step(old(d)@, a@, ref_text(value)), *final(d), r),
{
    let arg = a.as_str();
    let key = skip_hyphens(arg.as_bytes());
    if key_is(key, "h") || key_is(key, "help") {
        return Ok(Taken::Help);
    }
    if key_is(key, "pr-tol") {
        return take_number(&mut d.pr, arg, value);
    }
    if key_is(key, "cp-tol") {
        return take_number(&mut d.cp, arg, value);
    }
    if key_is(key, "do-tol") {
        return take_number(&mut d.dop, arg, value);
    }
    if key_is(key, "cn0-tol") {
        return take_number(&mut d.cn0, arg, value);
    }
    if key_is(key, "approx-pos-tol") {
        return take_number(&mut d.approx_pos, arg, value);
    }
    if key_is(key, "antenna-delta-tol") {
        return take_number(&mut d.antenna_delta, arg, value);
    }
    if key_is(key, "format") {
        return take_text(&mut d.format, arg, value);
    }
    if key_is(key, "a-format") {
        return take_text(&mut d.a_format, arg, value);
    }
    if key_is(key, "b-format") {
        return take_text(&mut d.b_format, arg, value);
    }
    if key_is(key, "rinex-backend") {
        return take_text(&mut d.backend, arg, value);
    }
    if key_is(key, "ignore-blank-phase") {
        d.ignore_blank_phase = true;
        return Ok(Taken::Arguments(1));
    }
    if key_is(key, "ignore-marker") {
        d.ignore_marker = true;
        return Ok(Taken::Arguments(1));
    }
    let b = arg.as_bytes();
    if b.len() > 0 && b[0] == 0x2d && !same_text(arg, "-") {
        return Err("unknown option ".to_owned().concat(arg));
    }
    let ghost before = d.files@;
    d.files.push(a.clone());
    assert(texts(d.files@) =~= texts(before).push(a@));
    Ok(Taken::Arguments(1))
}

/// Reads a command line: nothing where the usage is asked for.
pub fn parse_diff_arguments(args: &[String]) -> (r: Result<Option<DiffArguments>, String>)
    ensures
        match arguments_from(texts(args@), 0, no_arguments()) {
            Ok(None) => r matches Ok(None),
            Ok(Some(d)) => r matches Ok(Some(x)) && x@ == d,
            Err(e) => r matches Err(m) && m@ == e,
        },
{
    let mut d = DiffArguments {
        pr: None,
        cp: None,
        dop: None,
        cn0: None,
        approx_pos: None,
        antenna_delta: None,
        format: None,
        a_format: None,
        b_format: None,
        backend: None,
        ignore_blank_phase: false,
        ignore_marker: false,
        files: Vec::new(),
    };
    assert(texts(d.files@) =~= Seq::empty());
    assert(d@ == no_arguments());
    let ghost all = texts(args@);
    let n: usize = args.len();
    let mut i: usize = 0;
    while i < n
        invariant
            n == args@.len(),
            all == texts(args@),
            arguments_from(all, 0, no_arguments()) == arguments_from(all, i as int, d@),
        decreases n + 2 - i,
    {
        let value = if n - i > 1 {
            Some(&args[i + 1])
        } else {
            None
        };
        assert(ref_text(value) == argument_at(all, i + 1));
        assert(all[i as int] == args@[i as int]@);
        match take_option(&mut d, &args[i], value) {
            Err(e) => return Err(e),
            Ok(Taken::Help) => return Ok(None),
            Ok(Taken::Arguments(k)) => {
                if n - i <= k {
                    proof {
                        assert(arguments_from(all, i + k, d@) == Ok::<
                            Option<DiffArgumentsView>,
                            Seq<char>,
                        >(Some(d@)));
                    }
                    return Ok(Some(d));
                }
                i += k;
            },
        }
    }
    Ok(Some(d))
}

/// The format that an option names, obsj for none, or what is wrong with it.
pub open spec fn format_of(s: Option<Seq<char>>) -> Result<ObsFormat, Seq<char>> {
    match s {
        None => Ok(ObsFormat::Obsj),
        Some(x) => if is_name(x, "obsj"@) {
            Ok(ObsFormat::Obsj)
        } else if is_name(x, "rinex"@) {
            Ok(ObsFormat::Rinex)
        } else {
            Err(
                "unsupported format "@ + quoted_text(lowercase_text(x))
                    + " (expected obsj or rinex)"@,
            )
        },
    }
}

/// Parses a format.
pub fn parse_format(s: Option<&String>) -> (r: Result<ObsFormat, String>)
    ensures
        match format_of(ref_text(s)) {
            Ok(f) => r == Ok::<ObsFormat, String>(f),
            Err(e) => r matches Err(m) && m@ == e,
        },
{
    match s {
        None => Ok(ObsFormat::Obsj),
        Some(x) => if named(x.as_str(), "obsj") {
            Ok(ObsFormat::Obsj)
        } else if named(x.as_str(), "rinex") {
            Ok(ObsFormat::Rinex)
        } else {
            let what = with_quoted("unsupported format ", lowercase(x.as_str()).as_str());
            Err(what.concat(" (expected obsj or rinex)"))
        },
    }
}

/// A comparison that was asked for.
pub struct DiffJob {
    pub arguments: DiffArguments,
    pub a_format: ObsFormat,
    pub b_format: ObsFormat,
    pub backend: Option<RinexBackend>,
}

/// A text, or another where there is none.
pub open spec fn first_given(a: Option<Seq<char>>, b: Option<Seq<char>>) -> Option<Seq<char>> {
    match a {
        Some(x) => Some(x),
        None => b,
    }
}

/// The backend that arguments name, `auto` for none.
pub open spec fn backend_named(d: DiffArgumentsView) -> Result<Option<RinexBackend>, Seq<char>> {
    match d.backend {
        Some(s) => backend_of(s),
        None => Ok(None),
    }
}

/// What is wrong with arguments, if anything is.
pub open spec fn diff_error(d: DiffArgumentsView) -> Option<Seq<char>> {
    if d.files.len() != 2 {
        Some("expected exactly two input files"@)
    } else {
        match (
            format_of(first_given(d.a_format, d.format)),
            format_of(first_given(d.b_format, d.format)),
            backend_named(d),
        ) {
            (Err(e), _, _) => Some(e),
            (_, Err(e), _) => Some(e),
            (_, _, Err(e)) => Some(e),
            _ => None,
        }
    }
}

fn given<'a>(a: &'a Option<String>, b: &'a Option<String>) -> (r: Option<&'a String>)
    ensures
        ref_text(r) == first_given(text(*a), text(*b)),
{
    match a {
        Some(x) => Some(x),
        None => match b {
            Some(y) => Some(y),
            None => None,
        },
    }
}

/// Checks arguments and makes a comparison of them.
pub fn check_diff_arguments(d: DiffArguments) -> (r: Result<DiffJob, String>)
    ensures
        match diff_error(d@) {
            Some(e) => r matches Err(m) && m@ == e,
            None => {
                &&& r matches Ok(j) && j.arguments == d
                &&& r matches Ok(j) && format_of(first_given(d@.a_format, d@.format)) == Ok::<
                    ObsFormat,
                    Seq<char>,
                >(j.a_format)
                &&& r matches Ok(j) && format_of(first_given(d@.b_format, d@.format)) == Ok::<
                    ObsFormat,
                    Seq<char>,
                >(j.b_format)
                &&& r matches Ok(j) && backend_named(d@) == Ok::<Option<RinexBackend>, Seq<char>>(
                    j.backend,
                )
            },
        },
{
    assert(d@.files.len() == d.files@.len());
    if d.files.len() != 2 {
        return Err("expected exactly two input files".to_owned());
    }
    let a_format = match parse_format(given(&d.a_format, &d.format)) {
        Ok(f) => f,
        Err(e) => return Err(e),
    };
    let b_format = match parse_format(given(&d.b_format, &d.format)) {
        Ok(f) => f,
        Err(e) => return Err(e),
    };
    let backend = match &d.backend {
        Some(s) => match parse_rinex_backend(s.as_str()) {
            Ok(b) => b,
            Err(e) => return Err(e),
        },
        None => None,
    };
    Ok(DiffJob { arguments: d, a_format, b_format, backend })
}

/// Whether values are compared exactly where no tolerance is given: both inputs
/// are obsj, which keeps every digit.
pub fn compares_exactly(j: &DiffJob) -> (r: bool)
    ensures
        r == (j.a_format is Obsj && j.b_format is Obsj),
{
    matches!(j.a_format, ObsFormat::Obsj) && matches!(j.b_format, ObsFormat::Obsj)
}

// ---- the output ----

/// A part of a JSON object: a comma in front of all but the first.
pub open spec fn json_part(before: Seq<u8>, key: Seq<char>, value: Seq<u8>) -> Seq<u8> {
    before + (if before.len() > 1 {
        seq![0x2cu8]
    } else {
        Seq::empty()
    }) + seq![0x22u8] + utf8(key) + seq![0x22u8, 0x3au8] + value
}

/// A part of a JSON object, where there is a value.
pub open spec fn json_option(before: Seq<u8>, key: Seq<char>, value: Option<Seq<u8>>) -> Seq<u8> {
    match value {
        Some(v) => json_part(before, key, v),
        None => before,
    }
}

/// A part of a JSON object, where a flag is set.
pub open spec fn json_flag(before: Seq<u8>, key: Seq<char>, set: bool) -> Seq<u8> {
    if set {
        json_part(before, key, utf8("true"@))
    } else {
        before
    }
}

/// The bytes of an optional number.
pub open spec fn number_bytes(v: Option<&[u8]>) -> Option<Seq<u8>> {
    match v {
        Some(x) => Some(x@),
        None => None,
    }
}

/// One side of a difference as a JSON object; the numbers are given as text.
pub open spec fn side_text(d: SignalDiff<&[u8], &[u8]>) -> Seq<u8> {
    let a = json_option(
        seq![0x7bu8],
        "frq"@,
        match d.v.frq {
            Some(n) => Some(signed_dec(n as int)),
            None => None,
        },
    );
    let b = json_option(a, "pr"@, number_bytes(d.v.pr));
    let c = json_option(b, "cp"@, number_bytes(d.v.cp));
    let e = json_option(c, "do"@, number_bytes(d.v.dop));
    let f = json_option(e, "cn0"@, number_bytes(d.v.cn0));
    let g = json_flag(f, "hc"@, d.v.hc);
    let h = json_flag(g, "bt"@, d.v.bt);
    json_flag(h, "ll"@, d.ll) + seq![0x7du8]
}

/// A difference as a line of JSON.
pub open spec fn diff_text(d: DiffRecord<&[u8], &[u8]>, label: Seq<u8>) -> Seq<u8> {
    diff_head(d, label) + (match d.a {
        Some(x) => utf8(",\"a\":"@) + side_text(x),
        None => Seq::empty(),
    }) + (match d.b {
        Some(x) => utf8(",\"b\":"@) + side_text(x),
        None => Seq::empty(),
    }) + seq![0x7du8, 0x0au8]
}

fn push_part(out: &mut Vec<u8>, key: &str, value: &[u8])
    ensures
        final(out)@ == json_part(old(out)@, key@, value@),
{
    if out.len() > 1 {
        out.push(0x2c);
    }
    out.push(0x22);
    push_bytes(out, key.as_bytes());
    out.push(0x22);
    out.push(0x3a);
    push_bytes(out, value);
    assert(out@ =~= json_part(old(out)@, key@, value@));
}

fn push_number(out: &mut Vec<u8>, key: &str, value: Option<&[u8]>)
    ensures
        final(out)@ == json_option(old(out)@, key@, number_bytes(value)),
{
    if let Some(v) = value {
        push_part(out, key, v);
    }
}

fn push_flag(out: &mut Vec<u8>, key: &str, set: bool)
    ensures
        final(out)@ == json_flag(old(out)@, key@, set),
{
    if set {
        push_part(out, key, "true".as_bytes());
    }
}

/// One side of a difference as a JSON object.
pub fn append_diff(d: &SignalDiff<&[u8], &[u8]>) -> (r: Vec<u8>)
    ensures
        r@ == side_text(*d),
{
    let mut out: Vec<u8> = Vec::new();
    out.push(0x7b);
    assert(out@ =~= seq![0x7bu8]);
    if let Some(n) = d.v.frq {
        let digits = signed_bytes(n as i64);
        push_part(&mut out, "frq", digits.as_slice());
    }
    push_number(&mut out, "pr", d.v.pr);
    push_number(&mut out, "cp", d.v.cp);
    push_number(&mut out, "do", d.v.dop);
    push_number(&mut out, "cn0", d.v.cn0);
    push_flag(&mut out, "hc", d.v.hc);
    push_flag(&mut out, "bt", d.v.bt);
    push_flag(&mut out, "ll", d.ll);
    out.push(0x7d);
    assert(out@ =~= side_text(*d));
    out
}

/// What names a difference in its line: the time, the satellite and the signal.
pub open spec fn diff_head(d: DiffRecord<&[u8], &[u8]>, label: Seq<u8>) -> Seq<u8> {
    utf8("{\"t\":\""@) + label + utf8("\",\"sat\":\""@) + id_text(d.sat.0@) + utf8(
        "\",\"sig\":\""@,
    ) + id_text(d.sig.0@) + seq![0x22u8]
}

fn push_diff_head(out: &mut Vec<u8>, d: &DiffRecord<&[u8], &[u8]>)
    requires
        d.t.in_range(),
        old(out)@ == Seq::<u8>::empty(),
    ensures
        final(out)@ == diff_head(*d, civil_label(civil_at(d.t))),
{
    let label = d.t.to_string();
    proof {
        let c = choose|c: crate::obs::Civil|
            c.ordinary() && c.gps_ns() == d.t.0 * crate::obs::TICK_NS && utf8(label@)
                == civil_label(c);
        crate::obs::lemma_civil_unique(c, civil_at(d.t));
    }
    push_bytes(out, "{\"t\":\"".as_bytes());
    assert(out@ =~= utf8("{\"t\":\""@));
    push_bytes(out, label.as_str().as_bytes());
    push_bytes(out, "\",\"sat\":\"".as_bytes());
    push_bytes(out, d.sat.as_str().as_bytes());
    push_bytes(out, "\",\"sig\":\"".as_bytes());
    push_bytes(out, d.sig.as_str().as_bytes());
    let ghost before = out@;
    out.push(0x22);
    assert(out@ =~= before + seq![0x22u8]);
}

fn push_side(out: &mut Vec<u8>, key: &str, side: &Option<SignalDiff<&[u8], &[u8]>>)
    ensures
        final(out)@ == old(out)@ + (match *side {
            Some(x) => utf8(key@) + side_text(x),
            None => Seq::empty(),
        }),
{
    if let Some(x) = side {
        push_bytes(out, key.as_bytes());
        let text = append_diff(x);
        push_bytes(out, text.as_slice());
    }
    assert(out@ =~= old(out)@ + (match *side {
        Some(x) => utf8(key@) + side_text(x),
        None => Seq::empty(),
    }));
}

/// A difference as a line of JSON.
pub fn diff_line(d: &DiffRecord<&[u8], &[u8]>) -> (r: Vec<u8>)
    requires
        d.t.in_range(),
    ensures
        r@ == diff_text(*d, civil_label(civil_at(d.t))),
{
    let mut out: Vec<u8> = Vec::new();
    push_diff_head(&mut out, d);
    push_side(&mut out, ",\"a\":", &d.a);
    push_side(&mut out, ",\"b\":", &d.b);
    let ghost before = out@;
    out.push(0x7d);
    out.push(0x0a);
    assert(out@ =~= before + seq![0x7du8, 0x0au8]);
    out
}

/// Lines one behind the other.
pub open spec fn joined(lines: Seq<Vec<u8>>) -> Seq<u8>
    decreases lines.len(),
{
    if lines.len() == 0 {
        Seq::empty()
    } else {
        joined(lines.drop_last()) + lines.last()@
    }
}

/// What is written of two files: a line where their metadata differs, and the lines of
/// their observations that differ.
pub open spec fn report_text(metadata: bool, lines: Seq<Vec<u8>>) -> Seq<u8> {
    (if metadata {
        utf8("{\"metadata\":true}\n"@)
    } else {
        Seq::empty()
    }) + joined(lines)
}

/// The report on two files, from what their metadata have on one side only and the
/// lines of their observations that differ, and whether they differ at all.
pub fn report<F>(a: &Metadata<F>, b: &Metadata<F>, lines: &Vec<Vec<u8>>) -> (r: (Vec<u8>, bool))
    ensures
        r.0@ == report_text(!a@.zero() || !b@.zero(), lines@),
        r.1 == (!a@.zero() || !b@.zero() || lines@.len() > 0),
{
    let metadata: bool = !a.is_zero() || !b.is_zero();
    let mut out: Vec<u8> = Vec::new();
    if metadata {
        push_bytes(&mut out, "{\"metadata\":true}\n".as_bytes());
    }
    let ghost head = out@;
    let mut i: usize = 0;
    assert(lines@.take(0) =~= Seq::empty());
    assert(out@ =~= head + joined(lines@.take(0)));
    while i < lines.len()
        invariant
            i <= lines@.len(),
            out@ == head + joined(lines@.take(i as int)),
        decreases lines@.len() - i,
    {
        push_bytes(&mut out, lines[i].as_slice());
        proof {
            assert(lines@.take(i + 1).drop_last() =~= lines@.take(i as int));
            assert(out@ =~= head + joined(lines@.take(i + 1)));
        }
        i += 1;
    }
    assert(lines@.take(i as int) =~= lines@);
    assert(out@ =~= report_text(metadata, lines@));
    (out, metadata || lines.len() > 0)
}

} // verus!
