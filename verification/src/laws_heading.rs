//! What the header of a written file shows: the times of the first and the last observation,
//! the codes of each system and the channels of the GLONASS satellites, in their columns.

use crate::calendar::lemma_civil_days;
use crate::cells::{lemma_plain_join, plain};
use crate::header_contents::{
    channel_content, channel_ok, channels_ok, code_ok, codes_ok, lemma_channel_cells,
    lemma_channel_fields, lemma_code_cells, lemma_code_solid, lemma_sat_solid, lemma_time_fields,
    types_content,
};
use crate::header_lines::{lemma_header_bytes, lemma_line_columns, line_of};
use crate::labels::{is_label, lemma_labels, lemma_plain_text};
use crate::laws_header::labelled;
use crate::laws_rinex::{
    four_digits, is_tick, lemma_four, lemma_is_tick, lemma_seven, lemma_three, lemma_two,
    seven_digits, three_places, two_digits,
};
use crate::metadata::Metadata;
use crate::obs::{lemma_civil_unique, Civil, GpsTime, ObsCode, SatId};
use crate::rinex_write::{
    all_types_text, bias_text, civil_at, code_cells, frq_cells, frq_text, glonass_only,
    header_text, interval_text, leap_text, lemma_civil_at, obs_types_text, on_line, origin_text, second_text,
    signed_dec, station_text, system_title, systems_used, time_text, two_in_six, write_header,
};
use crate::rinexobs::{code_lists, ObsFile, SYSTEM_ORDER};
use crate::text::{dec, lemma_dec_len, pad_left, repeated, utf8, zero_padded};
use vstd::prelude::*;

verus! {

/// Whether a line stands in a text from byte `at` on, with a newline behind it.
pub open spec fn line_stands(d: Seq<u8>, at: int, line: Seq<u8>) -> bool {
    &&& 0 <= at && at + line.len() < d.len()
    &&& d.subrange(at, at + line.len()) == line
    &&& d[at + line.len()] == 0x0a
}

// ---- times ----

/// Whether a header line shows a time: the year in columns 2 to 6, the month in 10 to 12, the
/// day in 16 to 18, the hour in 22 to 24, the minute in 28 to 30, the second in 33 to 35 with
/// its decimals up to 43, and that it is GPS time in 48 to 51.
pub open spec fn is_time_line(line: Seq<u8>, c: Civil, name: Seq<char>) -> bool {
    &&& line.len() == 80 && labelled(line, name)
    &&& line[0] == 0x20 && line[1] == 0x20 && four_digits(line, 2, c.year as int)
    &&& two_digits(line, 10, c.month as int)
    &&& two_digits(line, 16, c.day as int)
    &&& two_digits(line, 22, c.hour as int)
    &&& two_digits(line, 28, c.minute as int)
    &&& two_digits(line, 33, c.second as int)
    &&& line[35] == 0x2e && seven_digits(line, 36, c.nanos as int / 100)
    &&& line[48] == 0x47 && line[49] == 0x50 && line[50] == 0x53
    &&& forall|i: int|
        6 <= i < 10 || 12 <= i < 16 || 18 <= i < 22 || 24 <= i < 28 || 30 <= i < 33 || 43 <= i < 48
            || 51 <= i < 60 ==> #[trigger] line[i] == 0x20
}

/// Whether the columns of a header line show a time.
pub open spec fn shows_columns(t: Seq<u8>, c: Civil) -> bool {
    &&& t.len() == 51
    &&& t[0] == 0x20 && t[1] == 0x20 && four_digits(t, 2, c.year as int)
    &&& two_digits(t, 10, c.month as int)
    &&& two_digits(t, 16, c.day as int)
    &&& two_digits(t, 22, c.hour as int)
    &&& two_digits(t, 28, c.minute as int)
    &&& two_digits(t, 33, c.second as int)
    &&& t[35] == 0x2e && seven_digits(t, 36, c.nanos as int / 100)
    &&& t[48] == 0x47 && t[49] == 0x50 && t[50] == 0x53
    &&& forall|i: int|
        6 <= i < 10 || 12 <= i < 16 || 18 <= i < 22 || 24 <= i < 28 || 30 <= i < 33 || 43 <= i < 48
            ==> #[trigger] t[i] == 0x20
}

#[verifier::rlimit(40)]
#[verifier::spinoff_prover]
proof fn lemma_time_columns(c: Civil)
    requires
        1000 <= c.year <= 9999,
        c.month < 100 && c.day < 100 && c.hour < 100 && c.minute < 100 && c.second < 100,
        c.nanos < 1_000_000_000,
    ensures
        shows_columns(time_text(c), c),
{
    let y = zero_padded(c.year as nat, 4);
    lemma_dec_len(c.year as nat);
    assert(y =~= dec(c.year as nat));
    lemma_four(c.year as nat);
    lemma_two(c.month as nat);
    lemma_two(c.day as nat);
    lemma_two(c.hour as nat);
    lemma_two(c.minute as nat);
    lemma_two(c.second as nat);
    lemma_seven(c.nanos as nat / 100);
    let p0 = pad_left(signed_dec(c.year as int), 6, 0x20);
    assert(p0 =~= repeated(0x20, 2) + y);
    let p1 = two_in_six(c.month as nat);
    let p2 = two_in_six(c.day as nat);
    let p3 = two_in_six(c.hour as nat);
    let p4 = two_in_six(c.minute as nat);
    let p5 = pad_left(second_text(c), 13, 0x20);
    let p6 = utf8("     GPS"@);
    reveal_strlit("     GPS");
    lemma_plain_text("     GPS"@);
    assert(p6.len() == 8 && p6[5] == 0x47 && p6[6] == 0x50 && p6[7] == 0x53);
    assert(p6[0] == 0x20 && p6[1] == 0x20 && p6[2] == 0x20 && p6[3] == 0x20 && p6[4] == 0x20);
    assert(p1.len() == 6 && p2.len() == 6 && p3.len() == 6 && p4.len() == 6 && p5.len() == 13);
    lemma_time_parts(p0, p1, p2, p3, p4, p5, p6);
    let t = time_text(c);
    assert(t == p0 + p1 + p2 + p3 + p4 + p5 + p6);
    let mo = zero_padded(c.month as nat, 2);
    let da = zero_padded(c.day as nat, 2);
    let ho = zero_padded(c.hour as nat, 2);
    let mi = zero_padded(c.minute as nat, 2);
    let se = zero_padded(c.second as nat, 2);
    let fr = zero_padded(c.nanos as nat / 100, 7);
    assert(t[2] == y[0] && t[3] == y[1] && t[4] == y[2] && t[5] == y[3]);
    assert(t[10] == p1[4] && t[11] == p1[5] && p1[4] == mo[0] && p1[5] == mo[1]);
    assert(t[16] == p2[4] && t[17] == p2[5] && p2[4] == da[0] && p2[5] == da[1]);
    assert(t[22] == p3[4] && t[23] == p3[5] && p3[4] == ho[0] && p3[5] == ho[1]);
    assert(t[28] == p4[4] && t[29] == p4[5] && p4[4] == mi[0] && p4[5] == mi[1]);
    assert(t[33] == p5[3] && t[34] == p5[4] && p5[3] == se[0] && p5[4] == se[1]);
    assert(t[35] == p5[5] && p5[5] == 0x2e);
    assert(t[36] == p5[6] && p5[6] == fr[0]);
    assert(t[37] == p5[7] && p5[7] == fr[1]);
    assert(t[38] == p5[8] && p5[8] == fr[2]);
    assert(t[39] == p5[9] && p5[9] == fr[3]);
    assert(t[40] == p5[10] && p5[10] == fr[4]);
    assert(t[41] == p5[11] && p5[11] == fr[5]);
    assert(t[42] == p5[12] && p5[12] == fr[6]);
    assert(t[48] == p6[5] && t[49] == p6[6] && t[50] == p6[7]);
}

proof fn lemma_time_parts(
    p0: Seq<u8>,
    p1: Seq<u8>,
    p2: Seq<u8>,
    p3: Seq<u8>,
    p4: Seq<u8>,
    p5: Seq<u8>,
    p6: Seq<u8>,
)
    requires
        p0.len() == 6 && p1.len() == 6 && p2.len() == 6 && p3.len() == 6 && p4.len() == 6,
        p5.len() == 13 && p6.len() == 8,
    ensures
        ({
            let t = p0 + p1 + p2 + p3 + p4 + p5 + p6;
            &&& t.len() == 51
            &&& forall|i: int| 0 <= i < 6 ==> #[trigger] t[i] == p0[i]
            &&& forall|i: int| 6 <= i < 12 ==> #[trigger] t[i] == p1[i - 6]
            &&& forall|i: int| 12 <= i < 18 ==> #[trigger] t[i] == p2[i - 12]
            &&& forall|i: int| 18 <= i < 24 ==> #[trigger] t[i] == p3[i - 18]
            &&& forall|i: int| 24 <= i < 30 ==> #[trigger] t[i] == p4[i - 24]
            &&& forall|i: int| 30 <= i < 43 ==> #[trigger] t[i] == p5[i - 30]
            &&& forall|i: int| 43 <= i < 51 ==> #[trigger] t[i] == p6[i - 43]
        }),
{
}

/// A header line shows its content, blanks up to column 60, and its label.
proof fn lemma_line_shown(content: Seq<u8>, name: Seq<char>)
    requires
        plain(content),
        content.len() <= 60,
        is_label(utf8(name)),
    ensures
        ({
            let line = line_of(content, utf8(name));
            &&& header_text(content, utf8(name)) == line + seq![0x0au8]
            &&& line.len() == 80 && labelled(line, name)
            &&& forall|k: int| 0 <= k < content.len() ==> #[trigger] line[k] == content[k]
            &&& forall|k: int| content.len() <= k < 60 ==> #[trigger] line[k] == 0x20
        }),
{
    lemma_header_bytes(content, utf8(name));
    lemma_line_columns(content, utf8(name));
}

proof fn lemma_time_at(t: GpsTime, c: Civil)
    requires
        t.in_range(),
        is_tick(t, c),
    ensures
        civil_at(t) == c,
        plain(time_text(c)),
        1687 <= c.year <= 2272,
        c.month < 100 && c.day < 100 && c.hour < 100 && c.minute < 100 && c.second < 100,
        c.nanos < 1_000_000_000,
{
    lemma_is_tick(t, c);
    lemma_civil_at(t);
    lemma_civil_unique(c, civil_at(t));
    lemma_civil_days(c.year as int, c.month as int, c.day as int);
    assert(plain(time_text(civil_at(t)))) by {
        lemma_time_fields(t);
    }
}

proof fn lemma_time_line(t: GpsTime, c: Civil, name: Seq<char>)
    requires
        t.in_range(),
        is_tick(t, c),
        is_label(utf8(name)),
    ensures
        is_time_line(line_of(time_text(civil_at(t)), utf8(name)), c, name),
        header_text(time_text(civil_at(t)), utf8(name)) == line_of(
            time_text(civil_at(t)),
            utf8(name),
        ) + seq![0x0au8],
{
    lemma_time_at(t, c);
    lemma_time_columns(c);
    lemma_line_shown(time_text(c), name);
    lemma_time_kept(time_text(c), line_of(time_text(c), utf8(name)), c, name);
}

proof fn lemma_time_kept(t: Seq<u8>, line: Seq<u8>, c: Civil, name: Seq<char>)
    requires
        shows_columns(t, c),
        line.len() == 80 && labelled(line, name),
        forall|k: int| 0 <= k < t.len() ==> #[trigger] line[k] == t[k],
        forall|k: int| t.len() <= k < 60 ==> #[trigger] line[k] == 0x20,
    ensures
        is_time_line(line, c, name),
{
}

/// Whether a header shows a time on a line of its own.
pub open spec fn shows_time(d: Seq<u8>, c: Civil, name: Seq<char>) -> bool {
    exists|at: int, line: Seq<u8>| #[trigger]
        line_stands(d, at, line) && is_time_line(line, c, name)
}

proof fn lemma_stands(a: Seq<u8>, line: Seq<u8>, b: Seq<u8>)
    ensures
        line_stands(a + (line + seq![0x0au8]) + b, a.len() as int, line),
{
    let d = a + (line + seq![0x0au8]) + b;
    assert(d.subrange(a.len() as int, (a.len() + line.len()) as int) =~= line);
}

proof fn lemma_two_stand(
    o: Seq<u8>,
    x: Seq<u8>,
    y: Seq<u8>,
    b1: Seq<u8>,
    b2: Seq<u8>,
    one: Seq<u8>,
    two: Seq<u8>,
    c1: Seq<u8>,
    c2: Seq<u8>,
    c3: Seq<u8>,
    c4: Seq<u8>,
)
    ensures
        ({
            let nl = seq![0x0au8];
            let d = o + (x + y + (b1 + b2 + (one + nl) + (two + nl) + c1 + c2 + c3 + c4));
            let at = (o.len() + x.len() + y.len() + b1.len() + b2.len()) as int;
            line_stands(d, at, one) && line_stands(d, at + one.len() + 1, two)
        }),
{
    let nl = seq![0x0au8];
    let d = o + (x + y + (b1 + b2 + (one + nl) + (two + nl) + c1 + c2 + c3 + c4));
    let a = o + x + y + b1 + b2;
    let c = c1 + c2 + c3 + c4;
    assert(d =~= a + (one + nl) + ((two + nl) + c));
    assert(d =~= (a + (one + nl)) + (two + nl) + c);
    lemma_stands(a, one, (two + nl) + c);
    lemma_stands(a + (one + nl), two, c);
}

/// A header shows the times of the first and the last observation.
#[verifier::rlimit(40)]
#[verifier::spinoff_prover]
pub proof fn lemma_times_shown(meta: &Metadata<&[u8]>, f: &ObsFile<&[u8]>, c: Civil, e: Civil)
    requires
        f.first.in_range() && f.last.in_range(),
        is_tick(f.first, c),
        is_tick(f.last, e),
    ensures
        forall|out: &mut Vec<u8>| #[trigger]
            call_ensures(write_header, (out, meta, f), ()) ==> shows_time(
                final(out)@,
                c,
                "TIME OF FIRST OBS"@,
            ) && shows_time(final(out)@, e, "TIME OF LAST OBS"@),
{
    assert(is_label(utf8("TIME OF FIRST OBS"@)) && is_label(utf8("TIME OF LAST OBS"@))) by {
        lemma_labels();
    }
    lemma_time_line(f.first, c, "TIME OF FIRST OBS"@);
    lemma_time_line(f.last, e, "TIME OF LAST OBS"@);
    let lists = code_lists(f.codes@);
    let m = meta@;
    let one = line_of(time_text(civil_at(f.first)), utf8("TIME OF FIRST OBS"@));
    let two = line_of(time_text(civil_at(f.last)), utf8("TIME OF LAST OBS"@));
    let x = origin_text(m, system_title(systems_used(lists)));
    let y = station_text(m);
    let b1 = all_types_text(lists, 7);
    let b2 = interval_text(m);
    let c1 = frq_text(glonass_only(f.frq@), 0);
    let c2 = bias_text(lists);
    let c3 = leap_text(m);
    let c4 = header_text(Seq::empty(), utf8("END OF HEADER"@));
    assert forall|out: &mut Vec<u8>| #[trigger]
        call_ensures(write_header, (out, meta, f), ()) implies shows_time(
        final(out)@,
        c,
        "TIME OF FIRST OBS"@,
    ) && shows_time(final(out)@, e, "TIME OF LAST OBS"@) by {
        lemma_two_stand((*out)@, x, y, b1, b2, one, two, c1, c2, c3, c4);
    }
}

// ---- codes ----

/// Whether code `i` of a system stands in its line, which begins at byte `at`: thirteen codes
/// on a line, four columns each, from column 6 on.
pub open spec fn code_stands(d: Seq<u8>, at: int, i: int, c: ObsCode) -> bool {
    let p = at + 6 + 4 * (i % 13);
    &&& 0 <= at && at + 81 <= d.len()
    &&& d[p] == 0x20 && d[p + 1] == c.0@[0] && d[p + 2] == c.0@[1] && d[p + 3] == c.0@[2]
    &&& labelled(d.subrange(at, at + 80), "SYS / # / OBS TYPES"@) && d[at + 80] == 0x0a
}

/// Whether the codes of a system stand in a header from byte `at` on: the letter of the system
/// and the number of codes, and then the codes in order.
pub open spec fn codes_stand(d: Seq<u8>, at: int, sys: u8, codes: Seq<ObsCode>) -> bool {
    &&& 0 <= at && at + 81 <= d.len()
    &&& d[at] == sys && three_places(d, at + 3, codes.len() as int)
    &&& forall|i: int|
        0 <= i < codes.len() ==> code_stands(d, at + 81 * (i / 13), i, #[trigger] codes[i])
}

proof fn lemma_cells(codes: Seq<ObsCode>, m: int)
    requires
        codes_ok(codes),
        0 <= m < codes.len(),
    ensures
        ({
            let s = code_cells(codes);
            &&& s.len() == 4 * codes.len()
            &&& s[4 * m] == 0x20
            &&& s[4 * m + 1] == codes[m].0@[0] && s[4 * m + 2] == codes[m].0@[1] && s[4 * m + 3]
                == codes[m].0@[2]
        }),
    decreases codes.len(),
{
    lemma_code_cells(codes);
    let t = codes.drop_last();
    assert forall|i: int| 0 <= i < t.len() implies code_ok(#[trigger] t[i]) by {
        assert(t[i] == codes[i]);
    }
    lemma_code_cells(t);
    assert(code_ok(codes.last()));
    lemma_code_solid(codes.last());
    if m < codes.len() - 1 {
        lemma_cells(t, m);
        assert(t[m] == codes[m]);
    }
}

/// The letter of a system and the number of its codes, or blanks.
pub open spec fn front_of(sys: u8, n: nat, i: int) -> Seq<u8> {
    if i == 0 {
        seq![sys] + pad_left(dec(n), 5, 0x20)
    } else {
        repeated(0x20, 6)
    }
}

proof fn lemma_front(sys: u8, n: nat, i: int)
    requires
        0x20 <= sys <= 0x7e,
        n < 1000,
    ensures
        front_of(sys, n, i).len() == 6,
        plain(front_of(sys, n, i)),
        i == 0 ==> front_of(sys, n, i)[0] == sys && three_places(front_of(sys, n, i), 3, n as int),
{
    let front = front_of(sys, n, i);
    if i == 0 {
        lemma_three(n);
        lemma_dec_len(n);
        let number = pad_left(dec(n), 3, 0x20);
        assert(front =~= seq![sys, 0x20u8, 0x20u8] + number);
        assert(front[3] == number[0] && front[4] == number[1] && front[5] == number[2]);
        assert forall|k: int| 0 <= k < 6 implies 0x20 <= #[trigger] front[k] <= 0x7e by {
            assert(k == 0 || k == 1 || k == 2 || k == 3 || k == 4 || k == 5);
        }
    }
}

proof fn lemma_types_line(content: Seq<u8>)
    requires
        plain(content),
        content.len() <= 58,
    ensures
        ({
            let t = header_text(content, utf8("SYS / # / OBS TYPES"@));
            &&& t.len() == 81 && t[80] == 0x0a
            &&& labelled(t.subrange(0, 80), "SYS / # / OBS TYPES"@)
            &&& forall|k: int| 0 <= k < content.len() ==> #[trigger] t[k] == content[k]
        }),
{
    let label = utf8("SYS / # / OBS TYPES"@);
    assert(is_label(label)) by {
        lemma_labels();
    }
    lemma_line_shown(content, "SYS / # / OBS TYPES"@);
    let t = header_text(content, label);
    assert(t.subrange(0, 80) =~= line_of(content, label));
}

#[verifier::rlimit(40)]
#[verifier::spinoff_prover]
proof fn lemma_code_line(sys: u8, codes: Seq<ObsCode>, i: int, j: int)
    requires
        0x20 <= sys <= 0x7e,
        codes_ok(codes),
        codes.len() < 1000,
        0 <= i <= j < codes.len(),
        i % 13 == 0,
        j < i + 13,
    ensures
        ({
            let t = header_text(types_content(sys, codes, i), utf8("SYS / # / OBS TYPES"@));
            &&& t.len() == 81
            &&& code_stands(t, 0, j, codes[j])
            &&& i == 0 ==> t[0] == sys && three_places(t, 3, codes.len() as int)
        }),
{
    let n = on_line(codes.len() - i, 13);
    let sub = codes.subrange(i, i + n);
    assert forall|k: int| 0 <= k < sub.len() implies code_ok(#[trigger] sub[k]) by {
        assert(sub[k] == codes[i + k]);
    }
    let cells = code_cells(sub);
    let m = j - i;
    lemma_code_cells(sub);
    lemma_cells(sub, m);
    let front = front_of(sys, codes.len(), i);
    lemma_front(sys, codes.len(), i);
    let content = types_content(sys, codes, i);
    assert(content == front + cells);
    lemma_plain_join(front, cells);
    lemma_types_line(content);
    let t = header_text(content, utf8("SYS / # / OBS TYPES"@));
    assert(j % 13 == m);
    assert(sub[m] == codes[j]);
    assert(content[6 + 4 * m] == cells[4 * m]);
    assert(content[6 + 4 * m + 1] == cells[4 * m + 1]);
    assert(content[6 + 4 * m + 2] == cells[4 * m + 2]);
    assert(content[6 + 4 * m + 3] == cells[4 * m + 3]);
    if i == 0 {
        assert(t[0] == front[0] && t[3] == front[3] && t[4] == front[4] && t[5] == front[5]);
    }
}

proof fn lemma_code_moved(t: Seq<u8>, at: int, i: int, c: ObsCode, d: Seq<u8>, base: int)
    requires
        code_stands(t, at, i, c),
        0 <= base && base + t.len() <= d.len(),
        d.subrange(base, base + t.len()) == t,
    ensures
        code_stands(d, base + at, i, c),
{
    assert(forall|k: int| 0 <= k < t.len() ==> #[trigger] d[base + k] == t[k]) by {
        assert forall|k: int| 0 <= k < t.len() implies #[trigger] d[base + k] == t[k] by {
            assert(d.subrange(base, base + t.len())[k] == d[base + k]);
        }
    }
    assert(d.subrange(base + at, base + at + 80) =~= t.subrange(at, at + 80));
    let p = at + 6 + 4 * (i % 13);
    assert(d[base + p] == t[p] && d[base + (p + 1)] == t[p + 1] && d[base + (p + 2)] == t[p + 2]
        && d[base + (p + 3)] == t[p + 3]);
    assert(d[base + (at + 80)] == t[at + 80]);
}

#[verifier::rlimit(40)]
#[verifier::spinoff_prover]
proof fn lemma_code_lines(sys: u8, codes: Seq<ObsCode>, i: int, j: int)
    requires
        0x20 <= sys <= 0x7e,
        codes_ok(codes),
        codes.len() < 1000,
        0 <= i <= j < codes.len(),
        i % 13 == 0,
    ensures
        code_stands(obs_types_text(sys, codes, i), 81 * ((j - i) / 13), j, codes[j]),
        i == 0 ==> obs_types_text(sys, codes, i)[0] == sys && three_places(
            obs_types_text(sys, codes, i),
            3,
            codes.len() as int,
        ),
    decreases codes.len() - i,
{
    let t = obs_types_text(sys, codes, i);
    let one = header_text(types_content(sys, codes, i), utf8("SYS / # / OBS TYPES"@));
    let rest = obs_types_text(sys, codes, i + 13);
    assert(t == one + rest);
    lemma_code_line(sys, codes, i, i);
    if j < i + 13 {
        lemma_code_line(sys, codes, i, j);
        assert(t.subrange(0, 81) =~= one);
        lemma_code_moved(one, 0, j, codes[j], t, 0);
    } else {
        lemma_code_lines(sys, codes, i + 13, j);
        assert(t.subrange(81, 81 + rest.len() as int) =~= rest);
        lemma_code_moved(rest, 81 * ((j - (i + 13)) / 13), j, codes[j], t, 81);
        assert((j - (i + 13)) / 13 == (j - i) / 13 - 1);
    }
    if i == 0 {
        assert(t[0] == one[0] && t[3] == one[3] && t[4] == one[4] && t[5] == one[5]);
    }
}

proof fn lemma_lists_stand(lists: Seq<Seq<ObsCode>>, k: int, n: int) -> (at: int)
    requires
        0 <= k < n <= 7,
    ensures
        ({
            let t = obs_types_text(SYSTEM_ORDER@[k], lists[k], 0);
            let d = all_types_text(lists, n);
            0 <= at && at + t.len() <= d.len() && d.subrange(at, at + t.len()) == t
        }),
    decreases n,
{
    let t = obs_types_text(SYSTEM_ORDER@[k], lists[k], 0);
    let d = all_types_text(lists, n);
    let before = all_types_text(lists, n - 1);
    if k == n - 1 {
        assert(d.subrange(before.len() as int, (before.len() + t.len()) as int) =~= t);
        before.len() as int
    } else {
        let at = lemma_lists_stand(lists, k, n - 1);
        assert(d.subrange(at, at + t.len()) =~= before.subrange(at, at + t.len()));
        at
    }
}

/// The place of a system in the lists of a file.
pub open spec fn list_place(sys: u8) -> int {
    if sys == 0x47 {
        0
    } else if sys == 0x52 {
        1
    } else if sys == 0x45 {
        2
    } else if sys == 0x4a {
        3
    } else if sys == 0x43 {
        4
    } else if sys == 0x49 {
        5
    } else {
        6
    }
}

proof fn lemma_part(o: Seq<u8>, x: Seq<u8>, y: Seq<u8>, all: Seq<u8>, r: Seq<u8>)
    ensures
        ({
            let d = o + (x + y + (all + r));
            let at = (o.len() + x.len() + y.len()) as int;
            at + all.len() <= d.len() && d.subrange(at, at + all.len()) == all
        }),
{
    let d = o + (x + y + (all + r));
    let at = (o.len() + x.len() + y.len()) as int;
    assert(d.subrange(at, at + all.len()) =~= all);
}

proof fn lemma_within(d: Seq<u8>, a: int, all: Seq<u8>, b: int, t: Seq<u8>)
    requires
        0 <= a && a + all.len() <= d.len(),
        d.subrange(a, a + all.len()) == all,
        0 <= b && b + t.len() <= all.len(),
        all.subrange(b, b + t.len()) == t,
    ensures
        d.subrange(a + b, a + b + t.len()) == t,
{
    assert forall|k: int| 0 <= k < t.len() implies d[a + b + k] == #[trigger] t[k] by {
        assert(all.subrange(b, b + t.len())[k] == all[b + k]);
        assert(d.subrange(a, a + all.len())[b + k] == d[a + (b + k)]);
    }
    assert(d.subrange(a + b, a + b + t.len()) =~= t);
}

proof fn lemma_codes_at(d: Seq<u8>, at: int, sys: u8, codes: Seq<ObsCode>)
    requires
        0x20 <= sys <= 0x7e,
        codes_ok(codes),
        0 < codes.len() < 1000,
        0 <= at && at + obs_types_text(sys, codes, 0).len() <= d.len(),
        d.subrange(at, at + obs_types_text(sys, codes, 0).len()) == obs_types_text(sys, codes, 0),
    ensures
        codes_stand(d, at, sys, codes),
{
    let t = obs_types_text(sys, codes, 0);
    lemma_code_lines(sys, codes, 0, 0);
    assert(t.len() >= 81);
    let s = d.subrange(at, at + t.len());
    assert(s[0] == d[at] && s[3] == d[at + 3] && s[4] == d[at + 4] && s[5] == d[at + 5]);
    assert forall|i: int| 0 <= i < codes.len() implies code_stands(
        d,
        at + 81 * (i / 13),
        i,
        #[trigger] codes[i],
    ) by {
        lemma_code_lines(sys, codes, 0, i);
        lemma_code_moved(t, 81 * (i / 13), i, codes[i], d, at);
    }
}

proof fn lemma_rest(
    all: Seq<u8>,
    b: Seq<u8>,
    c: Seq<u8>,
    e: Seq<u8>,
    f: Seq<u8>,
    g: Seq<u8>,
    h: Seq<u8>,
    i: Seq<u8>,
) -> (r: Seq<u8>)
    ensures
        all + b + c + e + f + g + h + i == all + r,
{
    let r = b + c + e + f + g + h + i;
    assert(all + b + c + e + f + g + h + i =~= all + r);
    r
}

/// A header shows the codes of each system that has any, in the order of its list.
#[verifier::rlimit(40)]
#[verifier::spinoff_prover]
pub proof fn lemma_codes_shown(meta: &Metadata<&[u8]>, f: &ObsFile<&[u8]>, sys: u8)
    requires
        f.codes@.len() == 7,
        sys == 0x47 || sys == 0x52 || sys == 0x45 || sys == 0x4a || sys == 0x43 || sys == 0x49
            || sys == 0x53,
        codes_ok(f.codes@[list_place(sys)]@),
        0 < f.codes@[list_place(sys)]@.len() < 1000,
    ensures
        forall|out: &mut Vec<u8>| #[trigger]
            call_ensures(write_header, (out, meta, f), ()) ==> exists|at: int| #[trigger]
                codes_stand(final(out)@, at, sys, f.codes@[list_place(sys)]@),
{
    let lists = code_lists(f.codes@);
    let m = meta@;
    let k = list_place(sys);
    let codes = f.codes@[k]@;
    assert(lists[k] == codes);
    assert(SYSTEM_ORDER@[k] == sys);
    let t = obs_types_text(sys, codes, 0);
    let place = lemma_lists_stand(lists, k, 7);
    let all = all_types_text(lists, 7);
    let x = origin_text(m, system_title(systems_used(lists)));
    let y = station_text(m);
    let r = lemma_rest(
        all,
        interval_text(m),
        header_text(time_text(civil_at(f.first)), utf8("TIME OF FIRST OBS"@)),
        header_text(time_text(civil_at(f.last)), utf8("TIME OF LAST OBS"@)),
        frq_text(glonass_only(f.frq@), 0),
        bias_text(lists),
        leap_text(m),
        header_text(Seq::empty(), utf8("END OF HEADER"@)),
    );
    assert forall|out: &mut Vec<u8>| #[trigger]
        call_ensures(write_header, (out, meta, f), ()) implies exists|at: int| #[trigger]
        codes_stand(final(out)@, at, sys, codes) by {
        let o = (*out)@;
        let d = final(out)@;
        assert(d == o + (x + y + (all + r)));
        lemma_part(o, x, y, all, r);
        let start = (o.len() + x.len() + y.len()) as int;
        lemma_within(d, start, all, place, t);
        lemma_codes_at(d, start + place, sys, codes);
    }
}

// ---- channels ----

/// Whether three bytes from `i` on are a number, at their right end.
pub open spec fn signed_places(s: Seq<u8>, i: int, n: int) -> bool {
    if n >= 0 {
        three_places(s, i, n)
    } else {
        -10 < n && s[i] == 0x20 && s[i + 1] == 0x2d && s[i + 2] == 0x30 - n
    }
}

/// Whether satellite `i` stands in its line, which begins at byte `at`, with its channel: eight
/// on a line, seven columns each, from column 3 on.
#[verifier::opaque]
pub open spec fn channel_stands(d: Seq<u8>, at: int, i: int, e: (SatId, i8)) -> bool {
    let p = at + 3 + 7 * (i % 8);
    &&& 0 <= at && at + 81 <= d.len()
    &&& d[p] == 0x20 && d[p + 1] == e.0.0@[0] && d[p + 2] == e.0.0@[1] && d[p + 3] == e.0.0@[2]
    &&& signed_places(d, p + 4, e.1 as int)
    &&& labelled(d.subrange(at, at + 80), "GLONASS SLOT / FRQ #"@) && d[at + 80] == 0x0a
}

/// Whether satellites with their channels stand in a header from byte `at` on, behind their
/// number.
pub open spec fn channels_stand(d: Seq<u8>, at: int, l: Seq<(SatId, i8)>) -> bool {
    &&& 0 <= at && at + 81 <= d.len()
    &&& three_places(d, at, l.len() as int)
    &&& forall|i: int|
        0 <= i < l.len() ==> channel_stands(d, at + 81 * (i / 8), i, #[trigger] l[i])
}

proof fn lemma_channel_text(n: int)
    requires
        -10 < n < 100,
    ensures
        pad_left(signed_dec(n), 3, 0x20).len() == 3,
        signed_places(pad_left(signed_dec(n), 3, 0x20), 0, n),
{
    if n >= 0 {
        lemma_three(n as nat);
    } else {
        lemma_dec_len((-n) as nat);
        assert(dec((-n) as nat) =~= seq![(0x30 - n) as u8]);
        assert(pad_left(signed_dec(n), 3, 0x20) =~= seq![0x20u8, 0x2du8, (0x30 - n) as u8]);
    }
}

proof fn lemma_channels_of(l: Seq<(SatId, i8)>, m: int)
    requires
        channels_ok(l),
        0 <= m < l.len(),
    ensures
        ({
            let s = frq_cells(l);
            &&& s.len() == 7 * l.len()
            &&& s[7 * m] == 0x20
            &&& s[7 * m + 1] == l[m].0.0@[0] && s[7 * m + 2] == l[m].0.0@[1] && s[7 * m + 3]
                == l[m].0.0@[2]
            &&& signed_places(s, 7 * m + 4, l[m].1 as int)
        }),
    decreases l.len(),
{
    lemma_channel_cells(l);
    let t = l.drop_last();
    assert forall|i: int| 0 <= i < t.len() implies channel_ok(#[trigger] t[i]) by {
        assert(t[i] == l[i]);
    }
    lemma_channel_cells(t);
    assert(channel_ok(l[l.len() - 1]));
    lemma_sat_solid(l.last().0);
    lemma_channel_text(l.last().1 as int);
    let s = frq_cells(l);
    let a = frq_cells(t);
    let b = l.last().0.0@;
    let c = pad_left(signed_dec(l.last().1 as int), 3, 0x20);
    assert(s == a + seq![0x20u8] + b + c);
    if m < l.len() - 1 {
        lemma_channels_of(t, m);
        assert(t[m] == l[m]);
        assert(s[7 * m + 4] == a[7 * m + 4] && s[7 * m + 5] == a[7 * m + 5] && s[7 * m + 6] == a[7
            * m + 6]);
    } else {
        assert(s[7 * m + 4] == c[0] && s[7 * m + 5] == c[1] && s[7 * m + 6] == c[2]);
    }
}

proof fn lemma_slots_line(content: Seq<u8>)
    requires
        plain(content),
        content.len() <= 59,
    ensures
        ({
            let t = header_text(content, utf8("GLONASS SLOT / FRQ #"@));
            &&& t.len() == 81 && t[80] == 0x0a
            &&& labelled(t.subrange(0, 80), "GLONASS SLOT / FRQ #"@)
            &&& forall|k: int| 0 <= k < content.len() ==> #[trigger] t[k] == content[k]
        }),
{
    let label = utf8("GLONASS SLOT / FRQ #"@);
    assert(is_label(label)) by {
        lemma_labels();
    }
    lemma_line_shown(content, "GLONASS SLOT / FRQ #"@);
    let t = header_text(content, label);
    assert(t.subrange(0, 80) =~= line_of(content, label));
}

proof fn lemma_cell_shown(
    front: Seq<u8>,
    cells: Seq<u8>,
    t: Seq<u8>,
    m: int,
    e: (SatId, i8),
)
    requires
        front.len() == 3,
        0 <= m && 7 * m + 7 <= cells.len(),
        front.len() + cells.len() <= t.len(),
        forall|k: int| 0 <= k < (front + cells).len() ==> #[trigger] t[k] == (front + cells)[k],
        cells[7 * m] == 0x20,
        cells[7 * m + 1] == e.0.0@[0] && cells[7 * m + 2] == e.0.0@[1] && cells[7 * m + 3]
            == e.0.0@[2],
        signed_places(cells, 7 * m + 4, e.1 as int),
    ensures
        ({
            let p = 3 + 7 * m;
            &&& t[p] == 0x20 && t[p + 1] == e.0.0@[0] && t[p + 2] == e.0.0@[1] && t[p + 3]
                == e.0.0@[2]
            &&& signed_places(t, p + 4, e.1 as int)
        }),
{
    let p = 3 + 7 * m;
    assert(t[p] == cells[7 * m]);
    assert(t[p + 1] == cells[7 * m + 1]);
    assert(t[p + 2] == cells[7 * m + 2]);
    assert(t[p + 3] == cells[7 * m + 3]);
    assert(t[p + 4] == cells[7 * m + 4]);
    assert(t[p + 5] == cells[7 * m + 5]);
    assert(t[p + 6] == cells[7 * m + 6]);
}

proof fn lemma_channel_content(l: Seq<(SatId, i8)>, i: int, j: int) -> (r: (Seq<u8>, Seq<u8>))
    requires
        channels_ok(l),
        l.len() < 1000,
        0 <= i <= j < l.len(),
        j < i + 8,
    ensures
        channel_content(l, i) == r.0 + r.1,
        plain(channel_content(l, i)),
        r.0.len() == 3,
        7 * (j - i) + 7 <= r.1.len() <= 56,
        i == 0 ==> three_places(r.0, 0, l.len() as int),
        ({
            let m = j - i;
            &&& r.1[7 * m] == 0x20
            &&& r.1[7 * m + 1] == l[j].0.0@[0] && r.1[7 * m + 2] == l[j].0.0@[1] && r.1[7 * m + 3]
                == l[j].0.0@[2]
            &&& signed_places(r.1, 7 * m + 4, l[j].1 as int)
        }),
{
    let n = on_line(l.len() - i, 8);
    let sub = l.subrange(i, i + n);
    assert forall|k: int| 0 <= k < sub.len() implies channel_ok(#[trigger] sub[k]) by {
        assert(sub[k] == l[i + k]);
    }
    let m = j - i;
    lemma_channels_of(sub, m);
    assert(sub[m] == l[j]);
    lemma_three(l.len());
    assert(plain(channel_content(l, i))) by {
        lemma_channel_fields(l, i);
    }
    let front = if i == 0 {
        pad_left(dec(l.len()), 3, 0x20)
    } else {
        repeated(0x20, 3)
    };
    (front, frq_cells(sub))
}

#[verifier::rlimit(40)]
#[verifier::spinoff_prover]
proof fn lemma_channel_line(l: Seq<(SatId, i8)>, i: int, j: int)
    requires
        channels_ok(l),
        l.len() < 1000,
        0 <= i <= j < l.len(),
        i % 8 == 0,
        j < i + 8,
    ensures
        ({
            let t = header_text(channel_content(l, i), utf8("GLONASS SLOT / FRQ #"@));
            &&& t.len() == 81
            &&& channel_stands(t, 0, j, l[j])
            &&& i == 0 ==> three_places(t, 0, l.len() as int)
        }),
{
    reveal(channel_stands);
    let (front, cells) = lemma_channel_content(l, i, j);
    let content = channel_content(l, i);
    lemma_slots_line(content);
    let t = header_text(content, utf8("GLONASS SLOT / FRQ #"@));
    let m = j - i;
    assert(j % 8 == m);
    lemma_cell_shown(front, cells, t, m, l[j]);
    if i == 0 {
        assert(t[0] == front[0] && t[1] == front[1] && t[2] == front[2]);
    }
}

proof fn lemma_channel_moved(t: Seq<u8>, at: int, i: int, e: (SatId, i8), d: Seq<u8>, base: int)
    requires
        channel_stands(t, at, i, e),
        0 <= base && base + t.len() <= d.len(),
        d.subrange(base, base + t.len()) == t,
    ensures
        channel_stands(d, base + at, i, e),
        0 <= at && at + 81 <= t.len(),
{
    reveal(channel_stands);
    assert forall|k: int| 0 <= k < t.len() implies #[trigger] d[base + k] == t[k] by {
        assert(d.subrange(base, base + t.len())[k] == d[base + k]);
    }
    assert(d.subrange(base + at, base + at + 80) =~= t.subrange(at, at + 80));
    let p = at + 3 + 7 * (i % 8);
    assert(d[base + p] == t[p] && d[base + (p + 1)] == t[p + 1] && d[base + (p + 2)] == t[p + 2]
        && d[base + (p + 3)] == t[p + 3]);
    assert(d[base + (p + 4)] == t[p + 4] && d[base + (p + 5)] == t[p + 5] && d[base + (p + 6)]
        == t[p + 6]);
    assert(d[base + (at + 80)] == t[at + 80]);
}

proof fn lemma_channel_head(l: Seq<(SatId, i8)>, i: int)
    requires
        0 <= i < l.len(),
    ensures
        frq_text(l, i) == header_text(channel_content(l, i), utf8("GLONASS SLOT / FRQ #"@))
            + frq_text(l, i + 8),
{
}

#[verifier::rlimit(40)]
#[verifier::spinoff_prover]
proof fn lemma_channel_lines(l: Seq<(SatId, i8)>, i: int, j: int)
    requires
        channels_ok(l),
        l.len() < 1000,
        0 <= i <= j < l.len(),
        i % 8 == 0,
    ensures
        channel_stands(frq_text(l, i), 81 * ((j - i) / 8), j, l[j]),
        i == 0 ==> three_places(frq_text(l, i), 0, l.len() as int),
    decreases l.len() - i,
{
    let t = frq_text(l, i);
    let one = header_text(channel_content(l, i), utf8("GLONASS SLOT / FRQ #"@));
    let rest = frq_text(l, i + 8);
    lemma_channel_head(l, i);
    lemma_channel_line(l, i, i);
    if j < i + 8 {
        lemma_channel_line(l, i, j);
        assert(t.subrange(0, 81) =~= one);
        lemma_channel_moved(one, 0, j, l[j], t, 0);
    } else {
        lemma_channel_lines(l, i + 8, j);
        assert(t.subrange(81, 81 + rest.len() as int) =~= rest);
        lemma_channel_moved(rest, 81 * ((j - (i + 8)) / 8), j, l[j], t, 81);
        assert((j - (i + 8)) / 8 == (j - i) / 8 - 1);
    }
    if i == 0 {
        assert(t[0] == one[0] && t[1] == one[1] && t[2] == one[2]);
    }
}

proof fn lemma_channels_at(d: Seq<u8>, at: int, l: Seq<(SatId, i8)>)
    requires
        channels_ok(l),
        0 < l.len() < 1000,
        0 <= at && at + frq_text(l, 0).len() <= d.len(),
        d.subrange(at, at + frq_text(l, 0).len()) == frq_text(l, 0),
    ensures
        channels_stand(d, at, l),
{
    let t = frq_text(l, 0);
    lemma_channel_lines(l, 0, 0);
    lemma_channel_moved(t, 0, 0, l[0], d, at);
    let s = d.subrange(at, at + t.len());
    assert(s[0] == d[at] && s[1] == d[at + 1] && s[2] == d[at + 2]);
    assert forall|i: int| 0 <= i < l.len() implies channel_stands(
        d,
        at + 81 * (i / 8),
        i,
        #[trigger] l[i],
    ) by {
        lemma_channel_lines(l, 0, i);
        lemma_channel_moved(t, 81 * (i / 8), i, l[i], d, at);
    }
}

proof fn lemma_middle(
    o: Seq<u8>,
    x: Seq<u8>,
    y: Seq<u8>,
    a: Seq<u8>,
    b: Seq<u8>,
    c: Seq<u8>,
    e: Seq<u8>,
    t: Seq<u8>,
    g: Seq<u8>,
    h: Seq<u8>,
    i: Seq<u8>,
) -> (at: int)
    ensures
        ({
            let d = o + (x + y + (a + b + c + e + t + g + h + i));
            0 <= at && at + t.len() <= d.len() && d.subrange(at, at + t.len()) == t
        }),
{
    let d = o + (x + y + (a + b + c + e + t + g + h + i));
    let front = o + x + y + a + b + c + e;
    assert(d =~= front + t + (g + h + i));
    assert(d.subrange(front.len() as int, (front.len() + t.len()) as int) =~= t);
    front.len() as int
}

/// A header shows the GLONASS satellites with their channels, in order.
#[verifier::rlimit(40)]
#[verifier::spinoff_prover]
pub proof fn lemma_channels_shown(meta: &Metadata<&[u8]>, f: &ObsFile<&[u8]>)
    requires
        channels_ok(glonass_only(f.frq@)),
        0 < glonass_only(f.frq@).len() < 1000,
    ensures
        forall|out: &mut Vec<u8>| #[trigger]
            call_ensures(write_header, (out, meta, f), ()) ==> exists|at: int| #[trigger]
                channels_stand(final(out)@, at, glonass_only(f.frq@)),
{
    let lists = code_lists(f.codes@);
    let m = meta@;
    let l = glonass_only(f.frq@);
    assert forall|out: &mut Vec<u8>| #[trigger]
        call_ensures(write_header, (out, meta, f), ()) implies exists|at: int| #[trigger]
        channels_stand(final(out)@, at, l) by {
        let at = lemma_middle(
            (*out)@,
            origin_text(m, system_title(systems_used(lists))),
            station_text(m),
            all_types_text(lists, 7),
            interval_text(m),
            header_text(time_text(civil_at(f.first)), utf8("TIME OF FIRST OBS"@)),
            header_text(time_text(civil_at(f.last)), utf8("TIME OF LAST OBS"@)),
            frq_text(l, 0),
            bias_text(lists),
            leap_text(m),
            header_text(Seq::empty(), utf8("END OF HEADER"@)),
        );
        lemma_channels_at(final(out)@, at, l);
    }
}

} // verus!
