//! What options, defaults and reports do.

use crate::cli::{
    apply_metadata_flags, parse_input, parse_output, set_metadata_defaults, MetadataFlags,
    OutputFormat,
};
use crate::diff::SignalDiff;
use crate::diffobs::{append_diff, json_flag, json_option, json_part, report, side_text};
use crate::laws_obsj::newer_value;
use crate::metadata::Metadata;
use crate::obs::Instant;
use crate::packet::InputFormat;
use crate::rinex_backend::is_name;
use crate::rinex_write::signed_dec;
use crate::text::utf8;
use vstd::prelude::*;

verus! {

// ---- metadata ----

/// Whether nothing is set in metadata.
pub open spec fn says_nothing<F>(m: Metadata<F>) -> bool {
    &&& m.version@.len() == 0 && m.observer@.len() == 0 && m.agency@.len() == 0
    &&& m.run.program@.len() == 0 && m.run.by@.len() == 0 && m.run.date is None
    &&& m.comment@.len() == 0
    &&& m.marker.name@.len() == 0 && m.marker.number@.len() == 0 && m.marker.type_@.len() == 0
    &&& m.receiver.number@.len() == 0 && m.receiver.type_@.len() == 0 && m.receiver.version@.len()
        == 0
    &&& m.antenna.number@.len() == 0 && m.antenna.type_@.len() == 0
    &&& m.approx_position is None && m.antenna_delta is None
    &&& m.interval is None && m.leap_seconds is None
}

/// Metadata is told to be empty exactly where nothing is set.
pub proof fn lemma_empty_metadata<F>(m: &Metadata<F>, r: bool)
    requires
        call_ensures(Metadata::<F>::is_zero, (m,), r),
    ensures
        r <==> says_nothing(*m),
{
    assert(m@.comment.len() == m.comment@.len());
}

/// A report tells a difference where a side has metadata of its own, or there is a line; it
/// has a line for the metadata in front, and then the lines.
pub proof fn lemma_report<F>(
    a: &Metadata<F>,
    b: &Metadata<F>,
    lines: &Vec<Vec<u8>>,
    r: (Vec<u8>, bool),
)
    requires
        call_ensures(report::<F>, (a, b, lines), r),
    ensures
        r.1 <==> !says_nothing(*a) || !says_nothing(*b) || lines@.len() > 0,
        says_nothing(*a) && says_nothing(*b) && lines@.len() == 0 ==> r.0@.len() == 0,
        says_nothing(*a) && says_nothing(*b) && lines@.len() == 1 ==> r.0@ == lines@[0]@,
        !(says_nothing(*a) && says_nothing(*b)) && lines@.len() == 0 ==> r.0@ == utf8(
            "{\"metadata\":true}\n"@,
        ),
{
    assert(a@.comment.len() == a.comment@.len());
    assert(b@.comment.len() == b.comment@.len());
    if lines@.len() == 1 {
        assert(lines@.drop_last() =~= Seq::empty());
        assert(crate::diffobs::joined(lines@.drop_last()) =~= Seq::empty());
        assert(crate::diffobs::joined(lines@) =~= lines@[0]@);
        assert(Seq::<u8>::empty() + lines@[0]@ =~= lines@[0]@);
    }
    if lines@.len() == 0 {
        let t = utf8("{\"metadata\":true}\n"@);
        assert(t + Seq::<u8>::empty() =~= t);
    }
}

/// Whether a text is the one that was there, or another where that was empty.
pub open spec fn kept_or(old: Seq<char>, other: Seq<char>, r: Seq<char>) -> bool {
    (old.len() > 0 ==> r == old) && (old.len() == 0 ==> r == other)
}

/// Defaults fill in the version 3.04, the program, the user, the date and the interval where
/// they are not set, and change nothing else.
pub proof fn lemma_defaults<F: Copy>(now: Instant, user: &str, interval: Option<F>)
    ensures
        forall|m: &mut Metadata<F>| #[trigger]
            call_ensures(set_metadata_defaults::<F>, (m, now, user, interval), ()) ==> {
                &&& kept_or((*m).version@, "3.04"@, final(m).version@)
                &&& kept_or((*m).run.program@, "convobs"@, final(m).run.program@)
                &&& (*m).run.by@.len() > 0 ==> final(m).run.by@ == (*m).run.by@
                &&& (*m).run.by@.len() == 0 && utf8(user@).len() <= 20 ==> final(m).run.by@ == user@
                &&& newer_value(Some(now), (*m).run.date, final(m).run.date)
                &&& newer_value(interval, (*m).interval, final(m).interval)
                &&& final(m).marker.name@ == (*m).marker.name@ && final(m).marker.number@
                    == (*m).marker.number@ && final(m).marker.type_@ == (*m).marker.type_@
                &&& final(m).observer@ == (*m).observer@ && final(m).agency@ == (*m).agency@
                &&& final(m)@.comment == (*m)@.comment
                &&& final(m)@.receiver == (*m)@.receiver && final(m)@.antenna == (*m)@.antenna
                &&& final(m).approx_position == (*m).approx_position && final(m).antenna_delta
                    == (*m).antenna_delta && final(m).leap_seconds == (*m).leap_seconds
            },
{
}

/// Whether a text is the one that an option gives, and else as it was.
pub open spec fn given_or(old: Seq<char>, option: Option<String>, r: Seq<char>) -> bool {
    match option {
        Some(s) => r == s@,
        None => r == old,
    }
}

/// Options put what they give in its place: the version, the program, who ran it, the type of
/// the antenna, the position and the comments. Nothing else changes.
pub proof fn lemma_options_applied<F>(f: MetadataFlags<F>)
    ensures
        forall|m: &mut Metadata<F>| #[trigger]
            call_ensures(apply_metadata_flags::<F>, (m, f), ()) ==> {
                &&& given_or((*m).version@, f.rinex_version, final(m).version@)
                &&& given_or((*m).run.program@, f.program, final(m).run.program@)
                &&& given_or((*m).run.by@, f.run_by, final(m).run.by@)
                &&& given_or((*m).antenna.type_@, f.antenna, final(m).antenna.type_@)
                &&& final(m).approx_position == (match f.approx_pos {
                    Some(p) => p,
                    None => (*m).approx_position,
                })
                &&& f.comment is None ==> final(m)@.comment == (*m)@.comment
                &&& final(m).run.date == (*m).run.date && final(m).antenna.number@
                    == (*m).antenna.number@
                &&& final(m)@.marker == (*m)@.marker && final(m)@.receiver == (*m)@.receiver
                &&& final(m).observer@ == (*m).observer@ && final(m).agency@ == (*m).agency@
                &&& final(m).antenna_delta == (*m).antenna_delta && final(m).interval
                    == (*m).interval && final(m).leap_seconds == (*m).leap_seconds
            },
{
}

// ---- names ----

/// Each name of an input stands for its format.
pub proof fn lemma_input_names(s: &str, r: Result<InputFormat, String>)
    requires
        call_ensures(parse_input, (s,), r),
    ensures
        r matches Ok(f) ==> match f {
            InputFormat::Raw => is_name(s@, "raw"@),
            InputFormat::Ubx => is_name(s@, "ubx"@),
            InputFormat::Rtcm => is_name(s@, "rtcm"@),
            InputFormat::Rinex => is_name(s@, "rinex"@),
            InputFormat::ObsJson => is_name(s@, "obsj"@),
        },
        is_name(s@, "raw"@) ==> r is Ok,
        is_name(s@, "ubx"@) ==> r is Ok,
        is_name(s@, "rtcm"@) ==> r is Ok,
        is_name(s@, "rinex"@) ==> r is Ok,
        is_name(s@, "obsj"@) ==> r is Ok,
{
}

/// Each name of an output stands for its format.
pub proof fn lemma_output_names(s: &str, r: Result<OutputFormat, String>)
    requires
        call_ensures(parse_output, (s,), r),
    ensures
        r matches Ok(f) ==> match f {
            OutputFormat::Rinex => is_name(s@, "rinex"@),
            OutputFormat::ObsJson => is_name(s@, "obsj"@),
        },
        is_name(s@, "rinex"@) ==> r is Ok,
        is_name(s@, "obsj"@) ==> r is Ok,
{
}

// ---- differences as JSON ----

/// A member of an object: the key in quotes, a colon and the value. There is none without a
/// value.
pub open spec fn member(key: Seq<char>, value: Option<Seq<u8>>) -> Seq<Seq<u8>> {
    match value {
        Some(v) => seq![seq![0x22u8] + utf8(key) + seq![0x22u8, 0x3au8] + v],
        None => Seq::empty(),
    }
}

/// Members one behind the other, with a comma between them.
pub open spec fn listed(parts: Seq<Seq<u8>>) -> Seq<u8>
    decreases parts.len(),
{
    if parts.len() == 0 {
        Seq::empty()
    } else if parts.len() == 1 {
        parts[0]
    } else {
        listed(parts.drop_last()) + seq![0x2cu8] + parts.last()
    }
}

/// The text of a number that may be absent.
pub open spec fn bytes_of(v: Option<&[u8]>) -> Option<Seq<u8>> {
    match v {
        Some(x) => Some(x@),
        None => None,
    }
}

/// The value of a flag, where it is set.
pub open spec fn truth(set: bool) -> Option<Seq<u8>> {
    if set {
        Some(utf8("true"@))
    } else {
        None
    }
}

/// The members of a side of a difference, each with its own value.
pub open spec fn members(d: SignalDiff<&[u8], &[u8]>) -> Seq<Seq<u8>> {
    member(
        "frq"@,
        match d.v.frq {
            Some(n) => Some(signed_dec(n as int)),
            None => None,
        },
    ) + member("pr"@, bytes_of(d.v.pr)) + member("cp"@, bytes_of(d.v.cp)) + member(
        "do"@,
        bytes_of(d.v.dop),
    ) + member("cn0"@, bytes_of(d.v.cn0)) + member("hc"@, truth(d.v.hc)) + member(
        "bt"@,
        truth(d.v.bt),
    ) + member("ll"@, truth(d.ll))
}

proof fn lemma_member(parts: Seq<Seq<u8>>, key: Seq<char>, value: Option<Seq<u8>>)
    requires
        forall|i: int| 0 <= i < parts.len() ==> (#[trigger] parts[i]).len() > 0,
    ensures
        json_option(seq![0x7bu8] + listed(parts), key, value) == seq![0x7bu8] + listed(
            parts + member(key, value),
        ),
        forall|i: int|
            0 <= i < (parts + member(key, value)).len() ==> (#[trigger] (parts + member(
                key,
                value,
            ))[i]).len() > 0,
{
    let before = seq![0x7bu8] + listed(parts);
    let all = parts + member(key, value);
    match value {
        None => {
            assert(all =~= parts);
        },
        Some(v) => {
            let m = seq![0x22u8] + utf8(key) + seq![0x22u8, 0x3au8] + v;
            assert(all.drop_last() =~= parts);
            assert(all.last() == m);
            if parts.len() == 0 {
                assert(all[0] == m);
                assert(before =~= seq![0x7bu8]);
                assert(json_part(before, key, v) =~= seq![0x7bu8] + m);
            } else {
                assert(listed(parts).len() > 0) by {
                    assert(parts[parts.len() - 1].len() > 0);
                }
                assert(json_part(before, key, v) =~= seq![0x7bu8] + (listed(parts) + seq![0x2cu8]
                    + m));
            }
        },
    }
}

proof fn lemma_flag(before: Seq<u8>, key: Seq<char>, set: bool)
    ensures
        json_flag(before, key, set) == json_option(before, key, truth(set)),
{
}

pub proof fn lemma_side_text(d: SignalDiff<&[u8], &[u8]>)
    ensures
        side_text(d) == seq![0x7bu8] + listed(members(d)) + seq![0x7du8],
{
    let none = Seq::<Seq<u8>>::empty();
    let frq = match d.v.frq {
        Some(n) => Some(signed_dec(n as int)),
        None => None,
    };
    let p1 = none + member("frq"@, frq);
    let p2 = p1 + member("pr"@, bytes_of(d.v.pr));
    let p3 = p2 + member("cp"@, bytes_of(d.v.cp));
    let p4 = p3 + member("do"@, bytes_of(d.v.dop));
    let p5 = p4 + member("cn0"@, bytes_of(d.v.cn0));
    let p6 = p5 + member("hc"@, truth(d.v.hc));
    let p7 = p6 + member("bt"@, truth(d.v.bt));
    let p8 = p7 + member("ll"@, truth(d.ll));
    lemma_member(none, "frq"@, frq);
    lemma_member(p1, "pr"@, bytes_of(d.v.pr));
    lemma_member(p2, "cp"@, bytes_of(d.v.cp));
    lemma_member(p3, "do"@, bytes_of(d.v.dop));
    lemma_member(p4, "cn0"@, bytes_of(d.v.cn0));
    lemma_member(p5, "hc"@, truth(d.v.hc));
    lemma_member(p6, "bt"@, truth(d.v.bt));
    lemma_member(p7, "ll"@, truth(d.ll));
    assert(seq![0x7bu8] + listed(none) =~= seq![0x7bu8]);
    assert(none + member("frq"@, frq) =~= member("frq"@, frq));
    lemma_flag(seq![0x7bu8] + listed(p5), "hc"@, d.v.hc);
    lemma_flag(seq![0x7bu8] + listed(p6), "bt"@, d.v.bt);
    lemma_flag(seq![0x7bu8] + listed(p7), "ll"@, d.ll);
    assert(side_text(d) == seq![0x7bu8] + listed(p8) + seq![0x7du8]);
    assert(p8 =~= members(d));
}

/// A side of a difference is written as an object with a member for each value, under its own
/// key.
pub proof fn lemma_side_written(d: &SignalDiff<&[u8], &[u8]>, r: Vec<u8>)
    requires
        call_ensures(append_diff, (d,), r),
    ensures
        r@ == seq![0x7bu8] + listed(members(*d)) + seq![0x7du8],
{
    lemma_side_text(*d);
}

} // verus!
