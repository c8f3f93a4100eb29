//! What is written into the header of a RINEX file is read from it again.

use crate::cells::{lemma_plain_join, plain};
use crate::header_contents::{
    all_types_after, channels_in, channels_ok, interval_ok, interval_place, lemma_all_types,
    lemma_bias_plain, lemma_bias_step, lemma_channel_lines, lemma_end_step, lemma_first_step,
    lemma_interval_place, lemma_interval_step, lemma_last_step, lemma_leap_step, lemma_one_field,
    lists_ok,
};
use crate::header_facts::{
    comment_kept, coordinates_ok, date_kept, kept, lemma_antenna_step, lemma_comment_step,
    lemma_delta_step, lemma_marker_name_step, lemma_marker_number_step, lemma_marker_type_step,
    lemma_observer_step, lemma_position_step, lemma_receiver_step, lemma_run_step,
    lemma_three_numbers, lemma_triple, lemma_version_content, lemma_version_step,
    lemma_zero_number, plain_text, triple_text, version_content, version_kept,
};
use crate::header_lines::{filled, lemma_header_bytes, lemma_header_line, lemma_header_on, line_of};
use crate::labels::{is_label, lemma_labels, lemma_plain_text};
use crate::metadata::{
    no_metadata, AntennaView, MarkerView, MetadataRunView, MetadataView, ReceiverView,
};
use crate::obs::{Civil, GpsTime, ObsCode, SatId};
use crate::reread::{lemma_plain_digits, lemma_split_at, option_text, reading_text};
use crate::rinex_read::{
    float_triple, header_from, header_step, no_header, reading, HeaderStep, ObsHeaderView,
    Reading,
};
use crate::rinex_write::{
    all_types_text, bias_text, civil_at, civil_of, column, comments_text, contents_text, coordinate,
    coordinates, frq_text, glonass_only, header_text, interval_text, leap_text, origin_text,
    run_date_text, signed_dec, station_text, system_title, systems_used, time_text, whole_header,
    year_text,
};
use crate::text::{pad_left, utf8, zero_padded};
use vstd::prelude::*;

verus! {

// ---- the whole header ----

/// What comments become.
pub open spec fn comments_kept(cs: Seq<Seq<char>>) -> Seq<Seq<char>> {
    Seq::new(cs.len(), |i: int| comment_kept(cs[i]))
}

/// Whether all texts are of printing ASCII characters.
pub open spec fn plain_texts(cs: Seq<Seq<char>>) -> bool {
    forall|i: int| 0 <= i < cs.len() ==> plain_text(#[trigger] cs[i])
}

pub proof fn lemma_comment_lines(
    d: Seq<u8>,
    pos: int,
    h: ObsHeaderView,
    cs: Seq<Seq<char>>,
    rest: Seq<u8>,
)
    requires
        0 <= pos <= d.len(),
        d.skip(pos) == comments_text(cs) + rest,
        plain_texts(cs),
        h.meta.comment == Seq::<Seq<char>>::empty(),
    ensures
        header_from(d, pos, h) == header_from(
            d,
            pos + comments_text(cs).len(),
            ObsHeaderView { meta: MetadataView { comment: comments_kept(cs), ..h.meta }, ..h },
        ),
        d.skip(pos + comments_text(cs).len()) == rest,
        pos + comments_text(cs).len() <= d.len(),
    decreases cs.len(),
{
    let text = comments_text(cs);
    lemma_split_at(d, pos, text, rest);
    if cs.len() == 0 {
        assert(comments_kept(cs) =~= h.meta.comment);
    } else {
        let t = cs.drop_last();
        let c = cs.last();
        let label = utf8("COMMENT"@);
        let line = header_text(utf8(c), label);
        assert(plain_texts(t)) by {
            assert forall|i: int| 0 <= i < t.len() implies plain_text(#[trigger] t[i]) by {
                assert(t[i] == cs[i]);
            }
        }
        assert(plain_text(cs[cs.len() - 1]));
        assert(text + rest =~= comments_text(t) + (line + rest));
        lemma_comment_lines(d, pos, h, t, line + rest);
        let before = ObsHeaderView {
            meta: MetadataView { comment: comments_kept(t), ..h.meta },
            ..h
        };
        let after = ObsHeaderView {
            meta: MetadataView { comment: comments_kept(cs), ..h.meta },
            ..h
        };
        let next = pos + comments_text(t).len();
        lemma_comment_step(before, c, next);
        assert(comments_kept(t).push(comment_kept(c)) =~= comments_kept(cs));
        lemma_labels();
        lemma_header_bytes(utf8(c), label);
        lemma_header_on(d, next, utf8(c), label, rest, before, after);
    }
}

pub proof fn lemma_title_plain(systems: Seq<int>)
    ensures
        plain_text(system_title(systems)),
{
    reveal_strlit("M: Mixed");
    lemma_plain_text("M: Mixed"@);
    reveal_strlit("G: GPS");
    lemma_plain_text("G: GPS"@);
    reveal_strlit("R: GLONASS");
    lemma_plain_text("R: GLONASS"@);
    reveal_strlit("E: Galileo");
    lemma_plain_text("E: Galileo"@);
    reveal_strlit("J: QZSS");
    lemma_plain_text("J: QZSS"@);
    reveal_strlit("C: BDS");
    lemma_plain_text("C: BDS"@);
    reveal_strlit("I: NavIC");
    lemma_plain_text("I: NavIC"@);
    reveal_strlit("S: SBAS");
    lemma_plain_text("S: SBAS"@);
}

pub proof fn lemma_date_plain(c: Civil)
    ensures
        plain(run_date_text(c)),
{
    let y = c.year as int;
    reveal_strlit(" UTC");
    lemma_plain_text(" UTC"@);
    lemma_plain_digits((-y) as nat, 3);
    lemma_plain_digits(y as nat, 4);
    lemma_plain_join(seq![0x2du8], zero_padded((-y) as nat, 3));
    lemma_plain_digits(c.month as nat, 2);
    lemma_plain_digits(c.day as nat, 2);
    lemma_plain_digits(c.hour as nat, 2);
    lemma_plain_digits(c.minute as nat, 2);
    lemma_plain_digits(c.second as nat, 2);
    let a = year_text(y);
    let b = zero_padded(c.month as nat, 2);
    let e = zero_padded(c.day as nat, 2);
    let s = seq![0x20u8];
    let g = zero_padded(c.hour as nat, 2);
    let i = zero_padded(c.minute as nat, 2);
    let k = zero_padded(c.second as nat, 2);
    lemma_plain_join(a, b);
    lemma_plain_join(a + b, e);
    lemma_plain_join(a + b + e, s);
    lemma_plain_join(a + b + e + s, g);
    lemma_plain_join(a + b + e + s + g, i);
    lemma_plain_join(a + b + e + s + g + i, k);
    lemma_plain_join(a + b + e + s + g + i + k, utf8(" UTC"@));
}

/// Whether the facts of a header can be read again: the texts are of printing
/// ASCII characters, and the numbers stand apart.
pub open spec fn header_ok(m: MetadataView<&[u8]>) -> bool {
    &&& plain_text(m.version)
    &&& plain_text(m.run.program)
    &&& plain_text(m.run.by)
    &&& plain_texts(m.comment)
    &&& plain_text(m.marker.name)
    &&& plain_text(m.marker.number)
    &&& plain_text(m.marker.type_)
    &&& plain_text(m.observer)
    &&& plain_text(m.agency)
    &&& plain_text(m.receiver.number)
    &&& plain_text(m.receiver.type_)
    &&& plain_text(m.receiver.version)
    &&& plain_text(m.antenna.number)
    &&& plain_text(m.antenna.type_)
    &&& coordinates_ok(m.approx_position)
    &&& coordinates_ok(m.antenna_delta)
    &&& interval_ok(m.interval)
}

/// The facts that the lines about the file give.
pub open spec fn origin_kept(m: MetadataView<&[u8]>) -> MetadataView<Reading> {
    MetadataView {
        version: version_kept(m.version),
        run: MetadataRunView {
            program: kept(m.run.program, 20),
            by: kept(m.run.by, 20),
            date: date_kept(m.run.date),
        },
        comment: comments_kept(m.comment),
        ..no_metadata()
    }
}

pub proof fn lemma_origin_lines(
    d: Seq<u8>,
    m: MetadataView<&[u8]>,
    systems: Seq<int>,
    rest: Seq<u8>,
)
    requires
        d == origin_text(m, system_title(systems)) + rest,
        header_ok(m),
    ensures
        header_from(d, 0, no_header()) == header_from(
            d,
            origin_text(m, system_title(systems)).len() as int,
            ObsHeaderView { meta: origin_kept(m), ..no_header() },
        ),
        d.skip(origin_text(m, system_title(systems)).len() as int) == rest,
        origin_text(m, system_title(systems)).len() <= d.len(),
{
    let title = system_title(systems);
    lemma_title_plain(systems);
    let h0 = no_header();
    let l1 = utf8("RINEX VERSION / TYPE"@);
    let l2 = utf8("PGM / RUN BY / DATE"@);
    let c1 = version_content(m.version, title);
    let date = match m.run.date {
        Some(x) => run_date_text(civil_of(x)),
        None => Seq::<u8>::empty(),
    };
    if m.run.date is Some {
        lemma_date_plain(civil_of(m.run.date->0));
    }
    let c2 = column(utf8(m.run.program), 20) + column(utf8(m.run.by), 20) + column(date, 20);
    let cs = comments_text(m.comment);
    let h1 = ObsHeaderView {
        meta: MetadataView { version: version_kept(m.version), ..h0.meta },
        ..h0
    };
    let h2 = ObsHeaderView {
        meta: MetadataView {
            run: MetadataRunView {
                program: kept(m.run.program, 20),
                by: kept(m.run.by, 20),
                date: date_kept(m.run.date),
            },
            ..h1.meta
        },
        ..h1
    };
    lemma_labels();
    lemma_version_content(m.version, title);
    lemma_version_step(h0, m.version, title, 0);
    lemma_run_step(h1, m.run.program, m.run.by, m.run.date, 81);
    let t1 = header_text(c1, l1);
    let t2 = header_text(c2, l2);
    assert(t1 + t2 + cs + rest =~= t1 + t2 + (cs + rest));
    assert(d.skip(0) =~= d);
    lemma_header_two(d, 0, c1, l1, c2, l2, cs + rest, h0, h1, h2);
    lemma_comment_lines(d, 162, h2, m.comment, rest);
}

/// Reading goes on behind two header lines.
pub proof fn lemma_header_two(
    d: Seq<u8>,
    pos: int,
    c1: Seq<u8>,
    l1: Seq<u8>,
    c2: Seq<u8>,
    l2: Seq<u8>,
    rest: Seq<u8>,
    h: ObsHeaderView,
    h1: ObsHeaderView,
    h2: ObsHeaderView,
)
    requires
        plain(c1) && plain(c2),
        is_label(l1) && is_label(l2),
        0 <= pos <= d.len(),
        d.skip(pos) == header_text(c1, l1) + header_text(c2, l2) + rest,
        header_step(h, line_of(c1, l1), pos) == HeaderStep::More(h1),
        header_step(h1, line_of(c2, l2), pos + 81) == HeaderStep::More(h2),
    ensures
        header_from(d, pos, h) == header_from(d, pos + 162, h2),
        d.skip(pos + 162) == rest,
        pos + 162 <= d.len(),
        header_text(c1, l1).len() == 81 && header_text(c2, l2).len() == 81,
{
    let t1 = header_text(c1, l1);
    let t2 = header_text(c2, l2);
    lemma_header_bytes(c1, l1);
    lemma_header_bytes(c2, l2);
    assert(t1 + t2 + rest =~= t1 + (t2 + rest));
    lemma_split_at(d, pos, t1, t2 + rest);
    lemma_header_on(d, pos, c1, l1, t2 + rest, h, h1);
    lemma_split_at(d, pos + 81, t2, rest);
    lemma_header_on(d, pos + 81, c2, l2, rest, h1, h2);
}

/// The facts that the lines about the station add to a header.
pub open spec fn station_kept(
    g: MetadataView<Reading>,
    m: MetadataView<&[u8]>,
    pos: int,
) -> MetadataView<Reading> {
    MetadataView {
        marker: MarkerView {
            name: kept(m.marker.name, 60),
            number: kept(m.marker.number, 60),
            type_: kept(m.marker.type_, 60),
        },
        observer: kept(m.observer, 20),
        agency: kept(m.agency, 40),
        receiver: ReceiverView {
            number: kept(m.receiver.number, 20),
            type_: kept(m.receiver.type_, 20),
            version: kept(m.receiver.version, 20),
        },
        antenna: AntennaView {
            number: kept(m.antenna.number, 20),
            type_: kept(m.antenna.type_, 20),
        },
        approx_position: float_triple(filled(coordinates(m.approx_position), 60), pos + 486),
        antenna_delta: float_triple(filled(coordinates(m.antenna_delta), 60), pos + 567),
        ..g
    }
}

pub proof fn lemma_marker_lines(
    d: Seq<u8>,
    pos: int,
    h: ObsHeaderView,
    m: MarkerView,
    rest: Seq<u8>,
)
    requires
        0 <= pos <= d.len(),
        plain_text(m.name),
        plain_text(m.number),
        plain_text(m.type_),
        d.skip(pos) == header_text(utf8(m.name), utf8("MARKER NAME"@)) + header_text(
            utf8(m.number),
            utf8("MARKER NUMBER"@),
        ) + header_text(utf8(m.type_), utf8("MARKER TYPE"@)) + rest,
    ensures
        header_from(d, pos, h) == header_from(
            d,
            pos + 243,
            ObsHeaderView {
                meta: MetadataView {
                    marker: MarkerView {
                        name: kept(m.name, 60),
                        number: kept(m.number, 60),
                        type_: kept(m.type_, 60),
                    },
                    ..h.meta
                },
                ..h
            },
        ),
        d.skip(pos + 243) == rest,
        pos + 243 <= d.len(),
{
    let l1 = utf8("MARKER NAME"@);
    let l2 = utf8("MARKER NUMBER"@);
    let l3 = utf8("MARKER TYPE"@);
    let t1 = header_text(utf8(m.name), l1);
    let t2 = header_text(utf8(m.number), l2);
    let t3 = header_text(utf8(m.type_), l3);
    let h1 = ObsHeaderView {
        meta: MetadataView {
            marker: MarkerView { name: kept(m.name, 60), ..h.meta.marker },
            ..h.meta
        },
        ..h
    };
    let h2 = ObsHeaderView {
        meta: MetadataView {
            marker: MarkerView { number: kept(m.number, 60), ..h1.meta.marker },
            ..h1.meta
        },
        ..h1
    };
    let h3 = ObsHeaderView {
        meta: MetadataView {
            marker: MarkerView { type_: kept(m.type_, 60), ..h2.meta.marker },
            ..h2.meta
        },
        ..h2
    };
    lemma_labels();
    lemma_header_bytes(utf8(m.name), l1);
    lemma_header_bytes(utf8(m.number), l2);
    lemma_header_bytes(utf8(m.type_), l3);
    assert(t1 + t2 + t3 + rest =~= t1 + (t2 + (t3 + rest)));
    lemma_marker_name_step(h, m.name, pos);
    lemma_header_on(d, pos, utf8(m.name), l1, t2 + (t3 + rest), h, h1);
    lemma_marker_number_step(h1, m.number, pos + 81);
    lemma_split_at(d, pos, t1, t2 + (t3 + rest));
    lemma_header_on(d, pos + 81, utf8(m.number), l2, t3 + rest, h1, h2);
    lemma_split_at(d, pos + 81, t2, t3 + rest);
    lemma_marker_type_step(h2, m.type_, pos + 162);
    lemma_header_on(d, pos + 162, utf8(m.type_), l3, rest, h2, h3);
    lemma_split_at(d, pos + 162, t3, rest);
}

/// The three lines about the observer, the receiver and the antenna.
pub open spec fn equipment_text(m: MetadataView<&[u8]>) -> Seq<u8> {
    header_text(
        column(utf8(m.observer), 20) + column(utf8(m.agency), 40),
        utf8("OBSERVER / AGENCY"@),
    ) + header_text(
        column(utf8(m.receiver.number), 20) + column(utf8(m.receiver.type_), 20) + column(
            utf8(m.receiver.version),
            20,
        ),
        utf8("REC # / TYPE / VERS"@),
    ) + header_text(
        column(utf8(m.antenna.number), 20) + column(utf8(m.antenna.type_), 20),
        utf8("ANT # / TYPE"@),
    )
}

pub proof fn lemma_equipment_lines(
    d: Seq<u8>,
    pos: int,
    h: ObsHeaderView,
    m: MetadataView<&[u8]>,
    rest: Seq<u8>,
)
    requires
        0 <= pos <= d.len(),
        header_ok(m),
        d.skip(pos) == equipment_text(m) + rest,
    ensures
        equipment_text(m).len() == 243,
        header_from(d, pos, h) == header_from(
            d,
            pos + 243,
            ObsHeaderView {
                meta: MetadataView {
                    observer: kept(m.observer, 20),
                    agency: kept(m.agency, 40),
                    receiver: ReceiverView {
                        number: kept(m.receiver.number, 20),
                        type_: kept(m.receiver.type_, 20),
                        version: kept(m.receiver.version, 20),
                    },
                    antenna: AntennaView {
                        number: kept(m.antenna.number, 20),
                        type_: kept(m.antenna.type_, 20),
                    },
                    ..h.meta
                },
                ..h
            },
        ),
        d.skip(pos + 243) == rest,
        pos + 243 <= d.len(),
{
    let l1 = utf8("OBSERVER / AGENCY"@);
    let l2 = utf8("REC # / TYPE / VERS"@);
    let l3 = utf8("ANT # / TYPE"@);
    let c1 = column(utf8(m.observer), 20) + column(utf8(m.agency), 40);
    let c2 = column(utf8(m.receiver.number), 20) + column(utf8(m.receiver.type_), 20) + column(
        utf8(m.receiver.version),
        20,
    );
    let c3 = column(utf8(m.antenna.number), 20) + column(utf8(m.antenna.type_), 20);
    let t1 = header_text(c1, l1);
    let t2 = header_text(c2, l2);
    let t3 = header_text(c3, l3);
    let h1 = ObsHeaderView {
        meta: MetadataView {
            observer: kept(m.observer, 20),
            agency: kept(m.agency, 40),
            ..h.meta
        },
        ..h
    };
    let h2 = ObsHeaderView {
        meta: MetadataView {
            receiver: ReceiverView {
                number: kept(m.receiver.number, 20),
                type_: kept(m.receiver.type_, 20),
                version: kept(m.receiver.version, 20),
            },
            ..h1.meta
        },
        ..h1
    };
    let h3 = ObsHeaderView {
        meta: MetadataView {
            antenna: AntennaView {
                number: kept(m.antenna.number, 20),
                type_: kept(m.antenna.type_, 20),
            },
            ..h2.meta
        },
        ..h2
    };
    lemma_labels();
    lemma_observer_step(h, m.observer, m.agency, pos);
    lemma_receiver_step(h1, m.receiver, pos + 81);
    lemma_antenna_step(h2, m.antenna, pos + 162);
    lemma_header_bytes(c1, l1);
    lemma_header_bytes(c2, l2);
    lemma_header_bytes(c3, l3);
    assert(t1 + t2 + t3 + rest =~= t1 + (t2 + (t3 + rest)));
    lemma_header_on(d, pos, c1, l1, t2 + (t3 + rest), h, h1);
    lemma_split_at(d, pos, t1, t2 + (t3 + rest));
    lemma_header_on(d, pos + 81, c2, l2, t3 + rest, h1, h2);
    lemma_split_at(d, pos + 81, t2, t3 + rest);
    lemma_header_on(d, pos + 162, c3, l3, rest, h2, h3);
    lemma_split_at(d, pos + 162, t3, rest);
}

pub proof fn lemma_place_lines(
    d: Seq<u8>,
    pos: int,
    h: ObsHeaderView,
    m: MetadataView<&[u8]>,
    rest: Seq<u8>,
)
    requires
        0 <= pos <= d.len() <= usize::MAX,
        header_ok(m),
        d.skip(pos) == header_text(
            coordinates(m.approx_position),
            utf8("APPROX POSITION XYZ"@),
        ) + header_text(coordinates(m.antenna_delta), utf8("ANTENNA: DELTA H/E/N"@)) + rest,
    ensures
        ({
            let x = float_triple(filled(coordinates(m.approx_position), 60), pos);
            let y = float_triple(filled(coordinates(m.antenna_delta), 60), pos + 81);
            &&& header_from(d, pos, h) == header_from(
                d,
                pos + 162,
                ObsHeaderView {
                    meta: MetadataView { approx_position: x, antenna_delta: y, ..h.meta },
                    ..h
                },
            )
            &&& triple_text(d, x) == Some(
                (
                    coordinate(m.approx_position, 0),
                    coordinate(m.approx_position, 1),
                    coordinate(m.approx_position, 2),
                ),
            )
            &&& triple_text(d, y) == Some(
                (
                    coordinate(m.antenna_delta, 0),
                    coordinate(m.antenna_delta, 1),
                    coordinate(m.antenna_delta, 2),
                ),
            )
        }),
        d.skip(pos + 162) == rest,
        pos + 162 <= d.len(),
{
    let l1 = utf8("APPROX POSITION XYZ"@);
    let l2 = utf8("ANTENNA: DELTA H/E/N"@);
    let c1 = coordinates(m.approx_position);
    let c2 = coordinates(m.antenna_delta);
    let t1 = header_text(c1, l1);
    let t2 = header_text(c2, l2);
    lemma_labels();
    lemma_coordinates_plain(m.approx_position);
    lemma_coordinates_plain(m.antenna_delta);
    lemma_header_bytes(c1, l1);
    lemma_header_bytes(c2, l2);
    assert(t1 + t2 + rest =~= t1 + (t2 + rest));
    lemma_split_at(d, pos, t1, t2 + rest);
    lemma_split_at(d, pos + 81, t2, rest);
    lemma_header_line(d, pos, c1, l1);
    lemma_header_line(d, pos + 81, c2, l2);
    lemma_triple(d, pos, m.approx_position, l1);
    lemma_triple(d, pos + 81, m.antenna_delta, l2);
    let h1 = ObsHeaderView {
        meta: MetadataView { approx_position: float_triple(filled(c1, 60), pos), ..h.meta },
        ..h
    };
    let h2 = ObsHeaderView {
        meta: MetadataView { antenna_delta: float_triple(filled(c2, 60), pos + 81), ..h1.meta },
        ..h1
    };
    lemma_position_step(h, m.approx_position, pos);
    lemma_delta_step(h1, m.antenna_delta, pos + 81);
    lemma_header_on(d, pos, c1, l1, t2 + rest, h, h1);
    lemma_header_on(d, pos + 81, c2, l2, rest, h1, h2);
}

pub proof fn lemma_coordinates_plain(v: Option<[&[u8]; 3]>)
    requires
        coordinates_ok(v),
    ensures
        plain(coordinates(v)),
{
    lemma_zero_number();
    lemma_three_numbers(coordinate(v, 0), coordinate(v, 1), coordinate(v, 2));
}

pub proof fn lemma_station_lines(
    d: Seq<u8>,
    pos: int,
    h: ObsHeaderView,
    m: MetadataView<&[u8]>,
    rest: Seq<u8>,
)
    requires
        0 <= pos <= d.len() <= usize::MAX,
        header_ok(m),
        d.skip(pos) == station_text(m) + rest,
    ensures
        header_from(d, pos, h) == header_from(
            d,
            pos + 648,
            ObsHeaderView { meta: station_kept(h.meta, m, pos), ..h },
        ),
        station_text(m).len() == 648,
        d.skip(pos + 648) == rest,
        pos + 648 <= d.len(),
        triple_text(d, station_kept(h.meta, m, pos).approx_position) == Some(
            (
                coordinate(m.approx_position, 0),
                coordinate(m.approx_position, 1),
                coordinate(m.approx_position, 2),
            ),
        ),
        triple_text(d, station_kept(h.meta, m, pos).antenna_delta) == Some(
            (
                coordinate(m.antenna_delta, 0),
                coordinate(m.antenna_delta, 1),
                coordinate(m.antenna_delta, 2),
            ),
        ),
{
    let b = equipment_text(m);
    let p1 = header_text(coordinates(m.approx_position), utf8("APPROX POSITION XYZ"@));
    let p2 = header_text(coordinates(m.antenna_delta), utf8("ANTENNA: DELTA H/E/N"@));
    let h1 = ObsHeaderView {
        meta: MetadataView {
            marker: MarkerView {
                name: kept(m.marker.name, 60),
                number: kept(m.marker.number, 60),
                type_: kept(m.marker.type_, 60),
            },
            ..h.meta
        },
        ..h
    };
    let h2 = ObsHeaderView {
        meta: MetadataView {
            observer: kept(m.observer, 20),
            agency: kept(m.agency, 40),
            receiver: ReceiverView {
                number: kept(m.receiver.number, 20),
                type_: kept(m.receiver.type_, 20),
                version: kept(m.receiver.version, 20),
            },
            antenna: AntennaView {
                number: kept(m.antenna.number, 20),
                type_: kept(m.antenna.type_, 20),
            },
            ..h1.meta
        },
        ..h1
    };
    lemma_eight(
        header_text(utf8(m.marker.name), utf8("MARKER NAME"@)),
        header_text(utf8(m.marker.number), utf8("MARKER NUMBER"@)),
        header_text(utf8(m.marker.type_), utf8("MARKER TYPE"@)),
        header_text(
            column(utf8(m.observer), 20) + column(utf8(m.agency), 40),
            utf8("OBSERVER / AGENCY"@),
        ),
        header_text(
            column(utf8(m.receiver.number), 20) + column(utf8(m.receiver.type_), 20) + column(
                utf8(m.receiver.version),
                20,
            ),
            utf8("REC # / TYPE / VERS"@),
        ),
        header_text(
            column(utf8(m.antenna.number), 20) + column(utf8(m.antenna.type_), 20),
            utf8("ANT # / TYPE"@),
        ),
        p1,
        p2,
        rest,
    );
    lemma_marker_lines(d, pos, h, m.marker, b + (p1 + p2 + rest));
    lemma_equipment_lines(d, pos + 243, h1, m, p1 + p2 + rest);
    lemma_place_lines(d, pos + 486, h2, m, rest);
    assert(d.skip(pos).len() == station_text(m).len() + rest.len());
}

pub proof fn lemma_eight(
    a: Seq<u8>,
    b: Seq<u8>,
    c: Seq<u8>,
    d: Seq<u8>,
    e: Seq<u8>,
    f: Seq<u8>,
    g: Seq<u8>,
    h: Seq<u8>,
    rest: Seq<u8>,
)
    ensures
        a + b + c + d + e + f + g + h + rest == a + b + c + ((d + e + f) + (g + h + rest)),
{
    assert(a + b + c + d + e + f + g + h + rest =~= a + b + c + ((d + e + f) + (g + h + rest)));
}

/// The facts that the lines about the observations add to a header.
pub open spec fn contents_kept(
    g: MetadataView<Reading>,
    m: MetadataView<&[u8]>,
    pos: int,
) -> MetadataView<Reading> {
    MetadataView {
        interval: match m.interval {
            Some(x) => Some(reading(pos, interval_place(x@))),
            None => g.interval,
        },
        leap_seconds: match m.leap_seconds {
            Some(n) => Some(n),
            None => g.leap_seconds,
        },
        ..g
    }
}

pub proof fn lemma_interval_line(
    d: Seq<u8>,
    pos: int,
    h: ObsHeaderView,
    m: MetadataView<&[u8]>,
    rest: Seq<u8>,
)
    requires
        0 <= pos <= d.len() <= usize::MAX,
        interval_ok(m.interval),
        d.skip(pos) == interval_text(m) + rest,
    ensures
        header_from(d, pos, h) == header_from(
            d,
            pos + interval_text(m).len(),
            ObsHeaderView {
                meta: MetadataView {
                    interval: match m.interval {
                        Some(x) => Some(reading(pos, interval_place(x@))),
                        None => h.meta.interval,
                    },
                    ..h.meta
                },
                ..h
            },
        ),
        d.skip(pos + interval_text(m).len()) == rest,
        pos + interval_text(m).len() <= d.len(),
        m.interval matches Some(x) ==> reading_text(d, reading(pos, interval_place(x@))) == x@,
{
    lemma_split_at(d, pos, interval_text(m), rest);
    if m.interval is Some {
        let x = m.interval->0;
        let content = pad_left(x@, 10, 0x20);
        let label = utf8("INTERVAL"@);
        lemma_labels();
        lemma_one_field(x@, 10);
        lemma_header_bytes(content, label);
        lemma_header_line(d, pos, content, label);
        lemma_interval_place(d, x@, pos);
        lemma_interval_step(h, x@, pos);
        let after = ObsHeaderView {
            meta: MetadataView {
                interval: Some(reading(pos, interval_place(x@))),
                ..h.meta
            },
            ..h
        };
        lemma_header_on(d, pos, content, label, rest, h, after);
    }
}

pub proof fn lemma_time_lines(
    d: Seq<u8>,
    pos: int,
    h: ObsHeaderView,
    first: GpsTime,
    last: GpsTime,
    rest: Seq<u8>,
)
    requires
        0 <= pos <= d.len(),
        first.in_range() && last.in_range(),
        d.skip(pos) == header_text(
            time_text(civil_at(first)),
            utf8("TIME OF FIRST OBS"@),
        ) + header_text(time_text(civil_at(last)), utf8("TIME OF LAST OBS"@)) + rest,
    ensures
        header_from(d, pos, h) == header_from(
            d,
            pos + 162,
            ObsHeaderView { time_system: utf8("GPS"@), ..h },
        ),
        d.skip(pos + 162) == rest,
        pos + 162 <= d.len(),
        header_text(time_text(civil_at(first)), utf8("TIME OF FIRST OBS"@)).len() == 81,
        header_text(time_text(civil_at(last)), utf8("TIME OF LAST OBS"@)).len() == 81,
{
    let after = ObsHeaderView { time_system: utf8("GPS"@), ..h };
    lemma_labels();
    lemma_first_step(h, first, pos);
    lemma_last_step(after, last, pos + 81);
    lemma_header_two(
        d,
        pos,
        time_text(civil_at(first)),
        utf8("TIME OF FIRST OBS"@),
        time_text(civil_at(last)),
        utf8("TIME OF LAST OBS"@),
        rest,
        h,
        after,
        after,
    );
}

pub proof fn lemma_bias_line(
    d: Seq<u8>,
    pos: int,
    h: ObsHeaderView,
    codes: Seq<Seq<ObsCode>>,
    rest: Seq<u8>,
)
    requires
        0 <= pos <= d.len(),
        d.skip(pos) == bias_text(codes) + rest,
    ensures
        header_from(d, pos, h) == header_from(d, pos + bias_text(codes).len(), h),
        d.skip(pos + bias_text(codes).len()) == rest,
        pos + bias_text(codes).len() <= d.len(),
{
    lemma_split_at(d, pos, bias_text(codes), rest);
    if codes[1].len() > 0 {
        let content = utf8(" C1C    0.000 C1P    0.000 C2C    0.000 C2P    0.000"@);
        let label = utf8("GLONASS COD/PHS/BIS"@);
        lemma_labels();
        lemma_bias_plain();
        lemma_header_bytes(content, label);
        lemma_bias_step(h, pos);
        lemma_header_on(d, pos, content, label, rest, h, h);
    }
}

pub proof fn lemma_leap_line(
    d: Seq<u8>,
    pos: int,
    h: ObsHeaderView,
    m: MetadataView<&[u8]>,
    rest: Seq<u8>,
)
    requires
        0 <= pos <= d.len(),
        d.skip(pos) == leap_text(m) + rest,
    ensures
        header_from(d, pos, h) == header_from(
            d,
            pos + leap_text(m).len(),
            ObsHeaderView {
                meta: MetadataView {
                    leap_seconds: match m.leap_seconds {
                        Some(n) => Some(n),
                        None => h.meta.leap_seconds,
                    },
                    ..h.meta
                },
                ..h
            },
        ),
        d.skip(pos + leap_text(m).len()) == rest,
        pos + leap_text(m).len() <= d.len(),
{
    lemma_split_at(d, pos, leap_text(m), rest);
    if m.leap_seconds is Some {
        let n = m.leap_seconds->0;
        let content = pad_left(signed_dec(n as int), 6, 0x20);
        let label = utf8("LEAP SECONDS"@);
        let after = ObsHeaderView {
            meta: MetadataView { leap_seconds: Some(n), ..h.meta },
            ..h
        };
        lemma_labels();
        lemma_leap_step(h, n, pos);
        lemma_header_bytes(content, label);
        lemma_header_on(d, pos, content, label, rest, h, after);
    }
}

pub proof fn lemma_end_line(d: Seq<u8>, pos: int, h: ObsHeaderView, rest: Seq<u8>)
    requires
        0 <= pos <= d.len(),
        h.time_system == utf8("GPS"@),
        d.skip(pos) == header_text(Seq::empty(), utf8("END OF HEADER"@)) + rest,
    ensures
        header_from(d, pos, h) == Ok::<(ObsHeaderView, int), Seq<char>>((h, pos + 81)),
        d.skip(pos + 81) == rest,
        pos + 81 <= d.len(),
{
    let label = utf8("END OF HEADER"@);
    let none = Seq::<u8>::empty();
    lemma_labels();
    lemma_header_bytes(none, label);
    lemma_split_at(d, pos, header_text(none, label), rest);
    lemma_header_line(d, pos, none, label);
    lemma_end_step(h, pos);
}

proof fn lemma_nine(
    a: Seq<u8>,
    b: Seq<u8>,
    c: Seq<u8>,
    d: Seq<u8>,
    e: Seq<u8>,
    f: Seq<u8>,
    g: Seq<u8>,
    h: Seq<u8>,
    rest: Seq<u8>,
)
    ensures
        a + b + c + d + e + f + g + h + rest == a + (b + (c + d + (e + (f + (g + (h + rest)))))),
{
    assert(a + b + c + d + e + f + g + h + rest =~= a + (b + (c + d + (e + (f + (g + (h
        + rest)))))));
}

/// The lines about the observations are read as what they were written for.
pub proof fn lemma_contents_lines(
    d: Seq<u8>,
    pos: int,
    h: ObsHeaderView,
    m: MetadataView<&[u8]>,
    codes: Seq<Seq<ObsCode>>,
    frq: Seq<(SatId, i8)>,
    first: GpsTime,
    last: GpsTime,
    rest: Seq<u8>,
) -> (after: ObsHeaderView)
    requires
        0 <= pos <= d.len() <= usize::MAX,
        d.skip(pos) == contents_text(m, codes, frq, first, last) + rest,
        interval_ok(m.interval),
        lists_ok(codes),
        channels_ok(glonass_only(frq)),
        glonass_only(frq).len() <= 999,
        first.in_range() && last.in_range(),
        h.codes == Seq::new(7, |j: int| Seq::<ObsCode>::empty()),
        h.frq == Map::<u64, i8>::empty(),
    ensures
        header_from(d, pos, h) == Ok::<(ObsHeaderView, int), Seq<char>>(
            (after, pos + contents_text(m, codes, frq, first, last).len()),
        ),
        after.codes == codes,
        after.frq == channels_in(glonass_only(frq), Map::empty()),
        after.time_system == utf8("GPS"@),
        after.meta == contents_kept(h.meta, m, pos + all_types_text(codes, 7).len()),
        m.interval matches Some(x) ==> reading_text(
            d,
            reading(pos + all_types_text(codes, 7).len(), interval_place(x@)),
        ) == x@,
{
    let l = glonass_only(frq);
    let t1 = all_types_text(codes, 7);
    let t2 = interval_text(m);
    let t3 = header_text(time_text(civil_at(first)), utf8("TIME OF FIRST OBS"@));
    let t4 = header_text(time_text(civil_at(last)), utf8("TIME OF LAST OBS"@));
    let t5 = frq_text(l, 0);
    let t6 = bias_text(codes);
    let t7 = leap_text(m);
    let t8 = header_text(Seq::empty(), utf8("END OF HEADER"@));
    let r8 = t8 + rest;
    let r7 = t7 + r8;
    let r6 = t6 + r7;
    let r5 = t5 + r6;
    lemma_nine(t1, t2, t3, t4, t5, t6, t7, t8, rest);
    lemma_all_types(d, pos, h, codes, 7, t2 + (t3 + t4 + r5));
    let h1 = all_types_after(h, codes, 7);
    assert(h1.codes =~= codes);
    let p1 = pos + t1.len();
    lemma_interval_line(d, p1, h1, m, t3 + t4 + r5);
    let h2 = ObsHeaderView {
        meta: MetadataView {
            interval: match m.interval {
                Some(x) => Some(reading(p1, interval_place(x@))),
                None => h1.meta.interval,
            },
            ..h1.meta
        },
        ..h1
    };
    let p2 = p1 + t2.len();
    lemma_time_lines(d, p2, h2, first, last, r5);
    let h3 = ObsHeaderView { time_system: utf8("GPS"@), ..h2 };
    let p3 = p2 + 162;
    assert(l.take(0) =~= Seq::<(SatId, i8)>::empty());
    assert(l.len() == 0 ==> l =~= Seq::<(SatId, i8)>::empty());
    assert(channels_in(Seq::<(SatId, i8)>::empty(), Map::<u64, i8>::empty()) == Map::<
        u64,
        i8,
    >::empty());
    lemma_channel_lines(d, p3, h3, l, 0, Map::empty(), r6);
    let h4 = ObsHeaderView { frq: channels_in(l, Map::empty()), ..h3 };
    let p4 = p3 + t5.len();
    lemma_bias_line(d, p4, h4, codes, r7);
    let p5 = p4 + t6.len();
    lemma_leap_line(d, p5, h4, m, r8);
    let h5 = ObsHeaderView {
        meta: MetadataView {
            leap_seconds: match m.leap_seconds {
                Some(n) => Some(n),
                None => h4.meta.leap_seconds,
            },
            ..h4.meta
        },
        ..h4
    };
    let p6 = p5 + t7.len();
    lemma_end_line(d, p6, h5, rest);
    assert(contents_text(m, codes, frq, first, last).len() == p6 + t8.len() - pos);
    assert(t8.len() == 81) by {
        lemma_labels();
        lemma_header_bytes(Seq::empty(), utf8("END OF HEADER"@));
    }
    h5
}

/// Whether the facts read from the header of a file are those it was written
/// with, as far as its columns keep them: texts are cut to the width of their
/// columns and lose the blanks around them, and a position that is not known is
/// one of zeros.
pub open spec fn facts_read(
    d: Seq<u8>,
    g: MetadataView<Reading>,
    m: MetadataView<&[u8]>,
) -> bool {
    &&& g.version == version_kept(m.version)
    &&& g.run.program == kept(m.run.program, 20)
    &&& g.run.by == kept(m.run.by, 20)
    &&& g.run.date == date_kept(m.run.date)
    &&& g.comment == comments_kept(m.comment)
    &&& g.marker.name == kept(m.marker.name, 60)
    &&& g.marker.number == kept(m.marker.number, 60)
    &&& g.marker.type_ == kept(m.marker.type_, 60)
    &&& g.observer == kept(m.observer, 20)
    &&& g.agency == kept(m.agency, 40)
    &&& g.receiver.number == kept(m.receiver.number, 20)
    &&& g.receiver.type_ == kept(m.receiver.type_, 20)
    &&& g.receiver.version == kept(m.receiver.version, 20)
    &&& g.antenna.number == kept(m.antenna.number, 20)
    &&& g.antenna.type_ == kept(m.antenna.type_, 20)
    &&& triple_text(d, g.approx_position) == Some(
        (
            coordinate(m.approx_position, 0),
            coordinate(m.approx_position, 1),
            coordinate(m.approx_position, 2),
        ),
    )
    &&& triple_text(d, g.antenna_delta) == Some(
        (
            coordinate(m.antenna_delta, 0),
            coordinate(m.antenna_delta, 1),
            coordinate(m.antenna_delta, 2),
        ),
    )
    &&& option_text(d, g.interval) == (match m.interval {
        Some(x) => Some(x@),
        None => None,
    })
    &&& g.leap_seconds == m.leap_seconds
}

/// The header of a file is read as what it was written for.
#[verifier::rlimit(40)]
pub proof fn lemma_header_read(
    d: Seq<u8>,
    m: MetadataView<&[u8]>,
    codes: Seq<Seq<ObsCode>>,
    frq: Seq<(SatId, i8)>,
    first: GpsTime,
    last: GpsTime,
    rest: Seq<u8>,
) -> (h: ObsHeaderView)
    requires
        d == whole_header(m, codes, frq, first, last) + rest,
        d.len() <= usize::MAX,
        header_ok(m),
        lists_ok(codes),
        channels_ok(glonass_only(frq)),
        glonass_only(frq).len() <= 999,
        first.in_range() && last.in_range(),
    ensures
        header_from(d, 0, no_header()) == Ok::<(ObsHeaderView, int), Seq<char>>(
            (h, whole_header(m, codes, frq, first, last).len() as int),
        ),
        h.codes == codes,
        h.frq == channels_in(glonass_only(frq), Map::empty()),
        h.time_system == utf8("GPS"@),
        facts_read(d, h.meta, m),
{
    let systems = systems_used(codes);
    let a = origin_text(m, system_title(systems));
    let b = station_text(m);
    let c = contents_text(m, codes, frq, first, last);
    lemma_four(a, b, c, rest);
    lemma_origin_lines(d, m, systems, b + (c + rest));
    let h1 = ObsHeaderView { meta: origin_kept(m), ..no_header() };
    let p1 = a.len() as int;
    lemma_station_lines(d, p1, h1, m, c + rest);
    let h2 = ObsHeaderView { meta: station_kept(h1.meta, m, p1), ..h1 };
    let p2 = p1 + 648;
    let h = lemma_contents_lines(d, p2, h2, m, codes, frq, first, last, rest);
    let p3 = p2 + all_types_text(codes, 7).len();
    assert(whole_header(m, codes, frq, first, last).len() == p2 + c.len());
    lemma_facts(d, m, p1, p3);
    h
}

proof fn lemma_four(a: Seq<u8>, b: Seq<u8>, c: Seq<u8>, rest: Seq<u8>)
    ensures
        a + b + c + rest == a + (b + (c + rest)),
{
    assert(a + b + c + rest =~= a + (b + (c + rest)));
}

proof fn lemma_facts(d: Seq<u8>, m: MetadataView<&[u8]>, p1: int, p3: int)
    requires
        triple_text(d, station_kept(origin_kept(m), m, p1).approx_position) == Some(
            (
                coordinate(m.approx_position, 0),
                coordinate(m.approx_position, 1),
                coordinate(m.approx_position, 2),
            ),
        ),
        triple_text(d, station_kept(origin_kept(m), m, p1).antenna_delta) == Some(
            (
                coordinate(m.antenna_delta, 0),
                coordinate(m.antenna_delta, 1),
                coordinate(m.antenna_delta, 2),
            ),
        ),
        m.interval matches Some(x) ==> reading_text(d, reading(p3, interval_place(x@))) == x@,
    ensures
        facts_read(d, contents_kept(station_kept(origin_kept(m), m, p1), m, p3), m),
{
}

} // verus!
