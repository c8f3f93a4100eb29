//! The header lines about a RINEX file and its station are read as what they were
//! written for.

use crate::cells::{apart, is_solid, lemma_plain_join, lemma_row_fields, plain, row, solid, texts};
use crate::columns::{
    cols, decimal_form, digit_run, field_ranges, is_float_text, lemma_field_ranges,
};
use crate::header_lines::{
    filled, first, lemma_column, lemma_line_columns, lemma_plain_chars, lemma_plain_count,
    lemma_plain_first, line_of,
};
use crate::labels::{is_label, lemma_labels, lemma_plain_text};
use crate::metadata::{AntennaView, MarkerView, MetadataRunView, MetadataView, ReceiverView};
use crate::obs::Instant;
use crate::reread::{is_number, lemma_same_place, reading_text};
use crate::rinex_read::{
    float_triple, header_step, reading, run_date, without_blanks, HeaderStep, ObsHeaderView,
    Reading,
};
use crate::rinex_write::{civil_of, column, coordinate, coordinates, run_date_text, version_text};
use crate::text::{fields, lossy_text, pad_left, repeated, trimmed, utf8};
use vstd::prelude::*;

verus! {

// ---- what the header says of the file ----

/// What is kept of a text in `n` columns.
pub open spec fn kept(s: Seq<char>, n: int) -> Seq<char> {
    lossy_text(trimmed(filled(utf8(s), n)))
}

/// The first word of the first twenty columns with a version.
pub open spec fn version_kept(version: Seq<char>) -> Seq<char> {
    let f = fields(version_text(utf8(version)) + repeated(0x20, 11));
    if f.len() > 0 {
        lossy_text(f[0])
    } else {
        Seq::empty()
    }
}

/// What is kept of a comment.
pub open spec fn comment_kept(c: Seq<char>) -> Seq<char> {
    lossy_text(without_blanks(filled(utf8(c), 60)))
}

/// What is kept of the date of a run.
pub open spec fn date_kept(d: Option<Instant>) -> Option<Instant> {
    run_date(
        filled(
            match d {
                Some(x) => run_date_text(civil_of(x)),
                None => Seq::empty(),
            },
            20,
        ),
    )
}

/// Whether a text is one of printing ASCII characters.
pub open spec fn plain_text(s: Seq<char>) -> bool {
    plain(utf8(s))
}

pub proof fn lemma_columns_join(a: Seq<u8>, b: Seq<u8>, c: Seq<u8>, n: int, m: int, k: int)
    requires
        plain(a),
        plain(b),
        plain(c),
        0 <= n,
        0 <= m,
        0 <= k,
        n + m + k == 60,
    ensures
        ({
            let content = column(a, n) + column(b, m) + column(c, k);
            &&& plain(content)
            &&& filled(content, 60) == content
            &&& content.subrange(0, n) == filled(a, n)
            &&& content.subrange(n, n + m) == filled(b, m)
            &&& content.subrange(n + m, 60) == filled(c, k)
        }),
{
    lemma_column(a, n);
    lemma_column(b, m);
    lemma_column(c, k);
    lemma_plain_join(column(a, n), column(b, m));
    lemma_plain_join(column(a, n) + column(b, m), column(c, k));
    let content = column(a, n) + column(b, m) + column(c, k);
    assert(filled(content, 60) =~= content);
    assert(content.subrange(0, n) =~= filled(a, n));
    assert(content.subrange(n, n + m) =~= filled(b, m));
    assert(content.subrange(n + m, 60) =~= filled(c, k));
}

pub proof fn lemma_version_middle()
    ensures
        utf8("           OBSERVATION DATA    "@).len() == 31,
        plain(utf8("           OBSERVATION DATA    "@)),
        utf8("           OBSERVATION DATA    "@).subrange(0, 11) == repeated(0x20, 11),
{
    let mid = utf8("           OBSERVATION DATA    "@);
    reveal_strlit("           OBSERVATION DATA    ");
    lemma_plain_text("           OBSERVATION DATA    "@);
    assert(mid[0] == 0x20 && mid[1] == 0x20 && mid[2] == 0x20 && mid[3] == 0x20);
    assert(mid[4] == 0x20 && mid[5] == 0x20 && mid[6] == 0x20 && mid[7] == 0x20);
    assert(mid[8] == 0x20 && mid[9] == 0x20 && mid[10] == 0x20);
    assert(mid.subrange(0, 11) =~= repeated(0x20, 11));
}

/// The content of the line with the version.
pub open spec fn version_content(version: Seq<char>, title: Seq<char>) -> Seq<u8> {
    version_text(utf8(version)) + utf8("           OBSERVATION DATA    "@) + column(utf8(title), 20)
}

pub proof fn lemma_version_content(version: Seq<char>, title: Seq<char>)
    requires
        plain_text(version),
        plain_text(title),
    ensures
        plain(version_content(version, title)),
        filled(version_content(version, title), 60) == version_content(version, title),
        version_content(version, title).len() == 60,
        version_content(version, title).subrange(0, 20) == version_text(utf8(version)) + repeated(
            0x20,
            11,
        ),
{
    let v = utf8(version);
    let mid = utf8("           OBSERVATION DATA    "@);
    lemma_version_middle();
    lemma_plain_chars(v, 9);
    lemma_plain_first(v, 9);
    lemma_plain_count(first(v, 9));
    lemma_column(utf8(title), 20);
    lemma_plain_join(repeated(0x20, 9 - first(v, 9).len()), first(v, 9));
    lemma_plain_join(version_text(v), mid);
    lemma_plain_join(version_text(v) + mid, column(utf8(title), 20));
    let content = version_content(version, title);
    assert(version_text(v).len() == 9);
    assert(content.len() == 60);
    assert(filled(content, 60) =~= content);
    assert(content.subrange(0, 20) =~= version_text(v) + mid.subrange(0, 11));
}

/// The line with the version.
pub proof fn lemma_version_step(h: ObsHeaderView, version: Seq<char>, title: Seq<char>, pos: int)
    requires
        plain_text(version),
        plain_text(title),
        h.meta.version == Seq::<char>::empty(),
    ensures
        header_step(
            h,
            line_of(version_content(version, title), utf8("RINEX VERSION / TYPE"@)),
            pos,
        ) == HeaderStep::More(
            ObsHeaderView {
                meta: MetadataView { version: version_kept(version), ..h.meta },
                ..h
            },
        ),
{
    reveal(header_step);
    let content = version_content(version, title);
    let label = utf8("RINEX VERSION / TYPE"@);
    lemma_version_content(version, title);
    lemma_labels();
    lemma_line_columns(content, label);
    assert(cols(line_of(content, label), 0, 20) == content.subrange(0, 20));
}

/// The line with the program, its user and the date.
pub proof fn lemma_run_step(
    h: ObsHeaderView,
    program: Seq<char>,
    by: Seq<char>,
    date: Option<Instant>,
    pos: int,
)
    requires
        plain_text(program),
        plain_text(by),
        date matches Some(d) ==> plain(run_date_text(civil_of(d))),
    ensures
        ({
            let text = match date {
                Some(d) => run_date_text(civil_of(d)),
                None => Seq::<u8>::empty(),
            };
            let content = column(utf8(program), 20) + column(utf8(by), 20) + column(text, 20);
            &&& plain(content)
            &&& header_step(h, line_of(content, utf8("PGM / RUN BY / DATE"@)), pos)
                == HeaderStep::More(
                ObsHeaderView {
                    meta: MetadataView {
                        run: MetadataRunView {
                            program: kept(program, 20),
                            by: kept(by, 20),
                            date: date_kept(date),
                        },
                        ..h.meta
                    },
                    ..h
                },
            )
        }),
{
    reveal(header_step);
    let text = match date {
        Some(d) => run_date_text(civil_of(d)),
        None => Seq::<u8>::empty(),
    };
    lemma_columns_join(utf8(program), utf8(by), text, 20, 20, 20);
    let content = column(utf8(program), 20) + column(utf8(by), 20) + column(text, 20);
    lemma_labels();
    lemma_line_columns(content, utf8("PGM / RUN BY / DATE"@));
}

/// A line with a comment.
pub proof fn lemma_comment_step(h: ObsHeaderView, c: Seq<char>, pos: int)
    requires
        plain_text(c),
    ensures
        header_step(h, line_of(utf8(c), utf8("COMMENT"@)), pos) == HeaderStep::More(
            ObsHeaderView {
                meta: MetadataView { comment: h.meta.comment.push(comment_kept(c)), ..h.meta },
                ..h
            },
        ),
{
    reveal(header_step);
    lemma_labels();
    lemma_line_columns(utf8(c), utf8("COMMENT"@));
}

/// The line with the name of the marker.
pub proof fn lemma_marker_name_step(h: ObsHeaderView, s: Seq<char>, pos: int)
    requires
        plain_text(s),
    ensures
        header_step(h, line_of(utf8(s), utf8("MARKER NAME"@)), pos) == HeaderStep::More(
            ObsHeaderView {
                meta: MetadataView {
                    marker: MarkerView { name: kept(s, 60), ..h.meta.marker },
                    ..h.meta
                },
                ..h
            },
        ),
{
    reveal(header_step);
    lemma_labels();
    lemma_line_columns(utf8(s), utf8("MARKER NAME"@));
}

/// The line with the number of the marker.
pub proof fn lemma_marker_number_step(h: ObsHeaderView, s: Seq<char>, pos: int)
    requires
        plain_text(s),
    ensures
        header_step(h, line_of(utf8(s), utf8("MARKER NUMBER"@)), pos) == HeaderStep::More(
            ObsHeaderView {
                meta: MetadataView {
                    marker: MarkerView { number: kept(s, 60), ..h.meta.marker },
                    ..h.meta
                },
                ..h
            },
        ),
{
    reveal(header_step);
    lemma_labels();
    lemma_line_columns(utf8(s), utf8("MARKER NUMBER"@));
}

/// The line with the type of the marker.
pub proof fn lemma_marker_type_step(h: ObsHeaderView, s: Seq<char>, pos: int)
    requires
        plain_text(s),
    ensures
        header_step(h, line_of(utf8(s), utf8("MARKER TYPE"@)), pos) == HeaderStep::More(
            ObsHeaderView {
                meta: MetadataView {
                    marker: MarkerView { type_: kept(s, 60), ..h.meta.marker },
                    ..h.meta
                },
                ..h
            },
        ),
{
    reveal(header_step);
    lemma_labels();
    lemma_line_columns(utf8(s), utf8("MARKER TYPE"@));
}

/// The line with the observer and the agency.
pub proof fn lemma_observer_step(h: ObsHeaderView, observer: Seq<char>, agency: Seq<char>, pos: int)
    requires
        plain_text(observer),
        plain_text(agency),
    ensures
        ({
            let content = column(utf8(observer), 20) + column(utf8(agency), 40);
            &&& plain(content)
            &&& header_step(h, line_of(content, utf8("OBSERVER / AGENCY"@)), pos)
                == HeaderStep::More(
                ObsHeaderView {
                    meta: MetadataView {
                        observer: kept(observer, 20),
                        agency: kept(agency, 40),
                        ..h.meta
                    },
                    ..h
                },
            )
        }),
{
    reveal(header_step);
    let none = Seq::<u8>::empty();
    lemma_columns_join(utf8(observer), utf8(agency), none, 20, 40, 0);
    lemma_column(none, 0);
    let content = column(utf8(observer), 20) + column(utf8(agency), 40);
    assert(content + column(none, 0) =~= content);
    lemma_labels();
    lemma_line_columns(content, utf8("OBSERVER / AGENCY"@));
}

/// The line with the receiver.
pub proof fn lemma_receiver_step(h: ObsHeaderView, r: ReceiverView, pos: int)
    requires
        plain_text(r.number),
        plain_text(r.type_),
        plain_text(r.version),
    ensures
        ({
            let content = column(utf8(r.number), 20) + column(utf8(r.type_), 20) + column(
                utf8(r.version),
                20,
            );
            &&& plain(content)
            &&& header_step(h, line_of(content, utf8("REC # / TYPE / VERS"@)), pos)
                == HeaderStep::More(
                ObsHeaderView {
                    meta: MetadataView {
                        receiver: ReceiverView {
                            number: kept(r.number, 20),
                            type_: kept(r.type_, 20),
                            version: kept(r.version, 20),
                        },
                        ..h.meta
                    },
                    ..h
                },
            )
        }),
{
    reveal(header_step);
    lemma_columns_join(utf8(r.number), utf8(r.type_), utf8(r.version), 20, 20, 20);
    let content = column(utf8(r.number), 20) + column(utf8(r.type_), 20) + column(
        utf8(r.version),
        20,
    );
    lemma_labels();
    lemma_line_columns(content, utf8("REC # / TYPE / VERS"@));
}

/// The line with the antenna.
pub proof fn lemma_antenna_step(h: ObsHeaderView, a: AntennaView, pos: int)
    requires
        plain_text(a.number),
        plain_text(a.type_),
    ensures
        ({
            let content = column(utf8(a.number), 20) + column(utf8(a.type_), 20);
            &&& plain(content)
            &&& header_step(h, line_of(content, utf8("ANT # / TYPE"@)), pos) == HeaderStep::More(
                ObsHeaderView {
                    meta: MetadataView {
                        antenna: AntennaView {
                            number: kept(a.number, 20),
                            type_: kept(a.type_, 20),
                        },
                        ..h.meta
                    },
                    ..h
                },
            )
        }),
{
    reveal(header_step);
    lemma_column(utf8(a.number), 20);
    lemma_column(utf8(a.type_), 20);
    lemma_plain_join(column(utf8(a.number), 20), column(utf8(a.type_), 20));
    let content = column(utf8(a.number), 20) + column(utf8(a.type_), 20);
    let all = filled(content, 60);
    assert(all.subrange(0, 20) =~= filled(utf8(a.number), 20));
    assert(all.subrange(20, 40) =~= filled(utf8(a.type_), 20));
    lemma_labels();
    lemma_line_columns(content, utf8("ANT # / TYPE"@));
}

// ---- three numbers ----

/// Whether three numbers stand apart in a line: each fits its fourteen columns,
/// and there is a blank between them.
pub open spec fn coordinates_ok(v: Option<[&[u8]; 3]>) -> bool {
    v matches Some(x) ==> {
        &&& is_number(x@[0]@)
        &&& is_number(x@[1]@) && x@[1]@.len() <= 13
        &&& is_number(x@[2]@) && x@[2]@.len() <= 13
    }
}

/// The texts of three readings.
pub open spec fn triple_text(d: Seq<u8>, v: Option<[Reading; 3]>) -> Option<
    (Seq<u8>, Seq<u8>, Seq<u8>),
> {
    match v {
        Some(x) => Some(
            (reading_text(d, x@[0]), reading_text(d, x@[1]), reading_text(d, x@[2])),
        ),
        None => None,
    }
}

pub proof fn lemma_zero_number()
    ensures
        is_number(utf8("0.0000"@)),
        utf8("0.0000"@).len() == 6,
{
    let s = utf8("0.0000"@);
    reveal_strlit("0.0000");
    lemma_plain_text("0.0000"@);
    assert(s[0] == 0x30 && s[1] == 0x2e && s[2] == 0x30 && s[3] == 0x30 && s[4] == 0x30 && s[5]
        == 0x30);
    let t = s.skip(2);
    assert(t[0] == 0x30 && t[1] == 0x30 && t[2] == 0x30 && t[3] == 0x30);
    reveal_with_fuel(digit_run, 6);
    assert(digit_run(s) == 1) by {
        assert(s.skip(1)[0] == 0x2e);
    }
    assert(digit_run(t) == 4) by {
        assert(t.skip(1)[0] == 0x30);
        assert(t.skip(1).skip(1)[0] == 0x30);
        assert(t.skip(1).skip(1).skip(1)[0] == 0x30);
    }
    reveal(is_float_text);
    assert(decimal_form(s));
    assert forall|i: int| 0 <= i < s.len() implies is_solid(#[trigger] s[i]) by {
        assert(i == 0 || i == 1 || i == 2 || i == 3 || i == 4 || i == 5);
    }
}

/// Three numbers that are the fields of a line are found there.
pub proof fn lemma_triple_found(
    d: Seq<u8>,
    pos: int,
    line: Seq<u8>,
    all: Seq<u8>,
    a: Seq<u8>,
    b: Seq<u8>,
    c: Seq<u8>,
)
    requires
        0 <= pos,
        pos + line.len() <= d.len() <= usize::MAX,
        d.subrange(pos, pos + line.len()) == line,
        all.len() <= line.len(),
        line.subrange(0, all.len() as int) == all,
        fields(all) == seq![a, b, c],
        is_float_text(a) && is_float_text(b) && is_float_text(c),
    ensures
        triple_text(d, float_triple(all, pos)) == Some((a, b, c)),
{
    lemma_field_ranges(all, 0);
    assert(all.skip(0) =~= all);
    let r = field_ranges(all, 0);
    let f = fields(all);
    assert(f[0] == a && f[1] == b && f[2] == c);
    let (r0, r1, r2) = (r[0], r[1], r[2]);
    lemma_same_place(d, pos, line, 0, all, r0);
    lemma_same_place(d, pos, line, 0, all, r1);
    lemma_same_place(d, pos, line, 0, all, r2);
    let x = [reading(pos, r0), reading(pos, r1), reading(pos, r2)];
    assert(float_triple(all, pos) == Some(x));
    assert(x@[0] == reading(pos, r0) && x@[1] == reading(pos, r1) && x@[2] == reading(pos, r2));
}

/// Three numbers of a line are found as what they were written for.
pub proof fn lemma_triple(d: Seq<u8>, pos: int, v: Option<[&[u8]; 3]>, label: Seq<u8>)
    requires
        coordinates_ok(v),
        is_label(label),
        0 <= pos,
        pos + 80 <= d.len() <= usize::MAX,
        d.subrange(pos, pos + 80) == line_of(coordinates(v), label),
    ensures
        plain(coordinates(v)),
        triple_text(d, float_triple(filled(coordinates(v), 60), pos)) == Some(
            (coordinate(v, 0), coordinate(v, 1), coordinate(v, 2)),
        ),
{
    lemma_zero_number();
    lemma_three_numbers(coordinate(v, 0), coordinate(v, 1), coordinate(v, 2));
    let content = coordinates(v);
    let all = filled(content, 60);
    let line = line_of(content, label);
    lemma_line_columns(content, label);
    assert(line.subrange(0, 60) =~= all);
    lemma_triple_found(
        d,
        pos,
        line,
        all,
        coordinate(v, 0),
        coordinate(v, 1),
        coordinate(v, 2),
    );
}

pub proof fn lemma_three_numbers(a: Seq<u8>, b: Seq<u8>, c: Seq<u8>)
    requires
        is_number(a),
        is_number(b) && b.len() <= 13,
        is_number(c) && c.len() <= 13,
    ensures
        ({
            let content = pad_left(a, 14, 0x20) + pad_left(b, 14, 0x20) + pad_left(c, 14, 0x20);
            &&& plain(content)
            &&& content.len() == 42
            &&& fields(filled(content, 60)) == seq![a, b, c]
        }),
{
    let content = pad_left(a, 14, 0x20) + pad_left(b, 14, 0x20) + pad_left(c, 14, 0x20);
    let items = seq![(14 - a.len(), a), (14 - b.len(), b), (14 - c.len(), c)];
    lemma_solid_plain(a);
    lemma_solid_plain(b);
    lemma_solid_plain(c);
    lemma_plain_join(repeated(0x20, 14 - a.len()), a);
    lemma_plain_join(repeated(0x20, 14 - b.len()), b);
    lemma_plain_join(repeated(0x20, 14 - c.len()), c);
    lemma_plain_join(pad_left(a, 14, 0x20), pad_left(b, 14, 0x20));
    lemma_plain_join(pad_left(a, 14, 0x20) + pad_left(b, 14, 0x20), pad_left(c, 14, 0x20));
    reveal_with_fuel(row, 4);
    assert(items.drop_last() =~= seq![(14 - a.len(), a), (14 - b.len(), b)]);
    assert(items.drop_last().drop_last() =~= seq![(14 - a.len(), a)]);
    assert(items.drop_last().drop_last().drop_last() =~= Seq::<(int, Seq<u8>)>::empty());
    assert(row(items) =~= content);
    assert(apart(items));
    lemma_row_fields(items, 18);
    assert(filled(content, 60) =~= row(items) + repeated(0x20, 18));
    assert(texts(items) =~= seq![a, b, c]);
}

pub proof fn lemma_solid_plain(s: Seq<u8>)
    requires
        solid(s),
    ensures
        plain(s),
{
    assert forall|i: int| 0 <= i < s.len() implies 0x20 <= #[trigger] s[i] <= 0x7e by {
        assert(is_solid(s[i]));
    }
}

/// The line with the position.
pub proof fn lemma_position_step(h: ObsHeaderView, v: Option<[&[u8]; 3]>, pos: int)
    requires
        plain(coordinates(v)),
        float_triple(filled(coordinates(v), 60), pos) is Some,
    ensures
        header_step(h, line_of(coordinates(v), utf8("APPROX POSITION XYZ"@)), pos)
            == HeaderStep::More(
            ObsHeaderView {
                meta: MetadataView {
                    approx_position: float_triple(filled(coordinates(v), 60), pos),
                    ..h.meta
                },
                ..h
            },
        ),
{
    reveal(header_step);
    lemma_labels();
    lemma_line_columns(coordinates(v), utf8("APPROX POSITION XYZ"@));
}

/// The line with the offset of the antenna.
pub proof fn lemma_delta_step(h: ObsHeaderView, v: Option<[&[u8]; 3]>, pos: int)
    requires
        plain(coordinates(v)),
        float_triple(filled(coordinates(v), 60), pos) is Some,
    ensures
        header_step(h, line_of(coordinates(v), utf8("ANTENNA: DELTA H/E/N"@)), pos)
            == HeaderStep::More(
            ObsHeaderView {
                meta: MetadataView {
                    antenna_delta: float_triple(filled(coordinates(v), 60), pos),
                    ..h.meta
                },
                ..h
            },
        ),
{
    reveal(header_step);
    lemma_labels();
    lemma_line_columns(coordinates(v), utf8("ANTENNA: DELTA H/E/N"@));
}

} // verus!
