//! A RINEX file that is written of printing ASCII characters is ASCII throughout.

use crate::cells::{lemma_plain_join, plain};
use crate::header_contents::{
    channel_content, channels_ok, codes_ok, interval_ok, lemma_bias_plain, lemma_channel_fields,
    lemma_leap_step, lemma_one_field, lemma_sat_solid, lemma_time_fields, lemma_types_fields,
    lists_ok, types_content,
};
use crate::header_facts::{
    lemma_columns_join, lemma_version_content, plain_text, version_content,
};
use crate::header_lines::{lemma_column, lemma_header_bytes, line_of};
use crate::labels::{is_label, lemma_labels};
use crate::metadata::MetadataView;
use crate::obs::{id_text, sat_valid, GpsTime, ObsCode, SatId};
use crate::reheader::{
    header_ok, lemma_coordinates_plain, lemma_date_plain, lemma_title_plain, plain_texts,
};
use crate::reread::{
    epoch_ok, fields_ok, lemma_epoch_line_plain, lemma_fields_text, records_ok,
};
use crate::rinex_read::no_header;
use crate::rinex_write::{
    all_types_text, bias_text, civil_at, civil_of, codes_for, column, comments_text, contents_text,
    coordinates, epoch_first_line, epoch_head, epoch_text, epochs_text, fields_text, frq_text,
    glonass_only, header_text, interval_text, leap_text, obs_types_text, origin_text,
    run_date_text, sat_text, sats_text, signed_dec, station_text, system_title, systems_used,
    time_text, whole_header,
};
use crate::rinexobs::{EpochView, SatRecordView, SYSTEM_ORDER};
use crate::text::{is_ascii, pad_left, repeated, utf8};
use vstd::prelude::*;

verus! {

/// Texts of ASCII characters stay so behind each other.
pub proof fn lemma_join(a: Seq<u8>, b: Seq<u8>)
    requires
        is_ascii(a),
        is_ascii(b),
    ensures
        is_ascii(a + b),
{
    assert forall|i: int| 0 <= i < (a + b).len() implies #[trigger] (a + b)[i] < 0x80 by {
        if i < a.len() {
            assert((a + b)[i] == a[i]);
        } else {
            assert((a + b)[i] == b[i - a.len()]);
        }
    }
}

/// A line of printing characters and its end.
proof fn lemma_line(s: Seq<u8>)
    requires
        plain(s),
    ensures
        is_ascii(s),
        is_ascii(s + seq![0x0au8]),
{
    assert(is_ascii(s)) by {
        assert forall|i: int| 0 <= i < s.len() implies #[trigger] s[i] < 0x80 by {
            assert(s[i] <= 0x7e);
        }
    }
    lemma_join(s, seq![0x0au8]);
}

proof fn lemma_header_line(content: Seq<u8>, label: Seq<u8>)
    requires
        plain(content),
        is_label(label),
    ensures
        is_ascii(header_text(content, label)),
{
    lemma_header_bytes(content, label);
    lemma_line(line_of(content, label));
}

// ---- the header ----

proof fn lemma_comments(cs: Seq<Seq<char>>)
    requires
        plain_texts(cs),
    ensures
        is_ascii(comments_text(cs)),
    decreases cs.len(),
{
    if cs.len() > 0 {
        let t = cs.drop_last();
        assert(plain_texts(t)) by {
            assert forall|i: int| 0 <= i < t.len() implies plain_text(#[trigger] t[i]) by {
                assert(t[i] == cs[i]);
            }
        }
        lemma_comments(t);
        assert(plain_text(cs[cs.len() - 1]));
        lemma_labels();
        lemma_header_line(utf8(cs.last()), utf8("COMMENT"@));
        lemma_join(comments_text(t), header_text(utf8(cs.last()), utf8("COMMENT"@)));
    }
}

proof fn lemma_origin(m: MetadataView<&[u8]>, systems: Seq<int>)
    requires
        header_ok(m),
    ensures
        is_ascii(origin_text(m, system_title(systems))),
{
    let title = system_title(systems);
    let date = match m.run.date {
        Some(x) => run_date_text(civil_of(x)),
        None => Seq::<u8>::empty(),
    };
    if m.run.date is Some {
        lemma_date_plain(civil_of(m.run.date->0));
    }
    let c1 = version_content(m.version, title);
    let c2 = column(utf8(m.run.program), 20) + column(utf8(m.run.by), 20) + column(date, 20);
    lemma_title_plain(systems);
    lemma_version_content(m.version, title);
    lemma_columns_join(utf8(m.run.program), utf8(m.run.by), date, 20, 20, 20);
    lemma_labels();
    let t1 = header_text(c1, utf8("RINEX VERSION / TYPE"@));
    let t2 = header_text(c2, utf8("PGM / RUN BY / DATE"@));
    lemma_header_line(c1, utf8("RINEX VERSION / TYPE"@));
    lemma_header_line(c2, utf8("PGM / RUN BY / DATE"@));
    lemma_comments(m.comment);
    lemma_join(t1, t2);
    lemma_join(t1 + t2, comments_text(m.comment));
}

proof fn lemma_station(m: MetadataView<&[u8]>)
    requires
        header_ok(m),
    ensures
        is_ascii(station_text(m)),
{
    let c4 = column(utf8(m.observer), 20) + column(utf8(m.agency), 40);
    let c5 = column(utf8(m.receiver.number), 20) + column(utf8(m.receiver.type_), 20) + column(
        utf8(m.receiver.version),
        20,
    );
    let c6 = column(utf8(m.antenna.number), 20) + column(utf8(m.antenna.type_), 20);
    lemma_column(utf8(m.observer), 20);
    lemma_column(utf8(m.agency), 40);
    lemma_plain_join(column(utf8(m.observer), 20), column(utf8(m.agency), 40));
    lemma_columns_join(
        utf8(m.receiver.number),
        utf8(m.receiver.type_),
        utf8(m.receiver.version),
        20,
        20,
        20,
    );
    lemma_column(utf8(m.antenna.number), 20);
    lemma_column(utf8(m.antenna.type_), 20);
    lemma_plain_join(column(utf8(m.antenna.number), 20), column(utf8(m.antenna.type_), 20));
    lemma_coordinates_plain(m.approx_position);
    lemma_coordinates_plain(m.antenna_delta);
    lemma_labels();
    let t1 = header_text(utf8(m.marker.name), utf8("MARKER NAME"@));
    let t2 = header_text(utf8(m.marker.number), utf8("MARKER NUMBER"@));
    let t3 = header_text(utf8(m.marker.type_), utf8("MARKER TYPE"@));
    let t4 = header_text(c4, utf8("OBSERVER / AGENCY"@));
    let t5 = header_text(c5, utf8("REC # / TYPE / VERS"@));
    let t6 = header_text(c6, utf8("ANT # / TYPE"@));
    let t7 = header_text(coordinates(m.approx_position), utf8("APPROX POSITION XYZ"@));
    let t8 = header_text(coordinates(m.antenna_delta), utf8("ANTENNA: DELTA H/E/N"@));
    lemma_header_line(utf8(m.marker.name), utf8("MARKER NAME"@));
    lemma_header_line(utf8(m.marker.number), utf8("MARKER NUMBER"@));
    lemma_header_line(utf8(m.marker.type_), utf8("MARKER TYPE"@));
    lemma_header_line(c4, utf8("OBSERVER / AGENCY"@));
    lemma_header_line(c5, utf8("REC # / TYPE / VERS"@));
    lemma_header_line(c6, utf8("ANT # / TYPE"@));
    lemma_header_line(coordinates(m.approx_position), utf8("APPROX POSITION XYZ"@));
    lemma_header_line(coordinates(m.antenna_delta), utf8("ANTENNA: DELTA H/E/N"@));
    lemma_eight(t1, t2, t3, t4, t5, t6, t7, t8);
}

proof fn lemma_eight(
    a: Seq<u8>,
    b: Seq<u8>,
    c: Seq<u8>,
    d: Seq<u8>,
    e: Seq<u8>,
    f: Seq<u8>,
    g: Seq<u8>,
    h: Seq<u8>,
)
    requires
        is_ascii(a) && is_ascii(b) && is_ascii(c) && is_ascii(d),
        is_ascii(e) && is_ascii(f) && is_ascii(g) && is_ascii(h),
    ensures
        is_ascii(a + b + c + d + e + f + g + h),
{
    lemma_join(a, b);
    lemma_join(a + b, c);
    lemma_join(a + b + c, d);
    lemma_join(a + b + c + d, e);
    lemma_join(a + b + c + d + e, f);
    lemma_join(a + b + c + d + e + f, g);
    lemma_join(a + b + c + d + e + f + g, h);
}

proof fn lemma_types(sys: u8, codes: Seq<ObsCode>, i: int)
    requires
        codes_ok(codes),
        codes.len() <= 999,
        0x21 <= sys <= 0x7e,
        i >= 0,
    ensures
        is_ascii(obs_types_text(sys, codes, i)),
    decreases codes.len() + 13 - i,
{
    if i < codes.len() {
        let content = types_content(sys, codes, i);
        let label = utf8("SYS / # / OBS TYPES"@);
        lemma_types_fields(sys, codes, i);
        lemma_labels();
        lemma_header_line(content, label);
        lemma_types(sys, codes, i + 13);
        lemma_join(header_text(content, label), obs_types_text(sys, codes, i + 13));
    }
}

proof fn lemma_all_types(codes: Seq<Seq<ObsCode>>, k: int)
    requires
        lists_ok(codes),
        k <= 7,
    ensures
        is_ascii(all_types_text(codes, k)),
    decreases k,
{
    if k > 0 {
        lemma_all_types(codes, k - 1);
        assert(codes_ok(codes[k - 1]) && codes[k - 1].len() <= 999);
        lemma_types(SYSTEM_ORDER@[k - 1], codes[k - 1], 0);
        lemma_join(
            all_types_text(codes, k - 1),
            obs_types_text(SYSTEM_ORDER@[k - 1], codes[k - 1], 0),
        );
    }
}

proof fn lemma_channel_lines(l: Seq<(SatId, i8)>, i: int)
    requires
        channels_ok(l),
        l.len() <= 999,
        i >= 0,
    ensures
        is_ascii(frq_text(l, i)),
    decreases l.len() + 8 - i,
{
    if i < l.len() {
        let content = channel_content(l, i);
        let label = utf8("GLONASS SLOT / FRQ #"@);
        lemma_channel_fields(l, i);
        lemma_labels();
        lemma_header_line(content, label);
        lemma_channel_lines(l, i + 8);
        lemma_join(header_text(content, label), frq_text(l, i + 8));
    }
}

proof fn lemma_contents(
    m: MetadataView<&[u8]>,
    codes: Seq<Seq<ObsCode>>,
    frq: Seq<(SatId, i8)>,
    first: GpsTime,
    last: GpsTime,
)
    requires
        interval_ok(m.interval),
        lists_ok(codes),
        channels_ok(glonass_only(frq)),
        glonass_only(frq).len() <= 999,
        first.in_range() && last.in_range(),
    ensures
        is_ascii(contents_text(m, codes, frq, first, last)),
{
    lemma_labels();
    lemma_all_types(codes, 7);
    if m.interval is Some {
        let x = m.interval->0;
        lemma_one_field(x@, 10);
        lemma_header_line(pad_left(x@, 10, 0x20), utf8("INTERVAL"@));
    }
    lemma_time_fields(first);
    lemma_time_fields(last);
    lemma_header_line(time_text(civil_at(first)), utf8("TIME OF FIRST OBS"@));
    lemma_header_line(time_text(civil_at(last)), utf8("TIME OF LAST OBS"@));
    lemma_channel_lines(glonass_only(frq), 0);
    lemma_bias_plain();
    lemma_header_line(
        utf8(" C1C    0.000 C1P    0.000 C2C    0.000 C2P    0.000"@),
        utf8("GLONASS COD/PHS/BIS"@),
    );
    if m.leap_seconds is Some {
        let n = m.leap_seconds->0;
        lemma_leap_step(no_header(), n, 0);
        lemma_header_line(pad_left(signed_dec(n as int), 6, 0x20), utf8("LEAP SECONDS"@));
    }
    lemma_header_line(Seq::empty(), utf8("END OF HEADER"@));
    lemma_eight(
        all_types_text(codes, 7),
        interval_text(m),
        header_text(time_text(civil_at(first)), utf8("TIME OF FIRST OBS"@)),
        header_text(time_text(civil_at(last)), utf8("TIME OF LAST OBS"@)),
        frq_text(glonass_only(frq), 0),
        bias_text(codes),
        leap_text(m),
        header_text(Seq::empty(), utf8("END OF HEADER"@)),
    );
}

/// A header is ASCII.
pub proof fn lemma_header_ascii(
    m: MetadataView<&[u8]>,
    codes: Seq<Seq<ObsCode>>,
    frq: Seq<(SatId, i8)>,
    first: GpsTime,
    last: GpsTime,
)
    requires
        header_ok(m),
        lists_ok(codes),
        channels_ok(glonass_only(frq)),
        glonass_only(frq).len() <= 999,
        first.in_range() && last.in_range(),
    ensures
        is_ascii(whole_header(m, codes, frq, first, last)),
{
    let a = origin_text(m, system_title(systems_used(codes)));
    lemma_origin(m, systems_used(codes));
    lemma_station(m);
    lemma_contents(m, codes, frq, first, last);
    lemma_join(a, station_text(m));
    lemma_join(a + station_text(m), contents_text(m, codes, frq, first, last));
}

// ---- the epochs ----

proof fn lemma_sats(sats: Seq<SatRecordView<&[u8]>>, codes: Seq<Seq<ObsCode>>)
    requires
        records_ok(sats),
    ensures
        is_ascii(sats_text(sats, codes)),
    decreases sats.len(),
{
    if sats.len() > 0 {
        let t = sats.drop_last();
        assert(records_ok(t)) by {
            assert forall|i: int| 0 <= i < t.len() implies sat_valid((#[trigger] t[i]).sat.0@)
                && fields_ok(t[i].fields) by {
                assert(t[i] == sats[i]);
            }
            assert forall|i: int, j: int| 0 <= i < j < t.len() implies (#[trigger] t[i]).sat
                != (#[trigger] t[j]).sat by {
                assert(sats[i].sat != sats[j].sat);
            }
        }
        lemma_sats(t, codes);
        let r = sats[sats.len() - 1];
        assert(sat_valid(r.sat.0@) && fields_ok(r.fields));
        let id = id_text(r.sat.0@);
        let fields = fields_text(r.fields, codes_for(codes, r.sat));
        lemma_sat_solid(r.sat);
        lemma_fields_text(r.fields, codes_for(codes, r.sat));
        assert(plain(id)) by {
            assert forall|i: int| 0 <= i < id.len() implies 0x20 <= #[trigger] id[i] <= 0x7e by {
                assert(crate::cells::is_solid(r.sat.0@[i]));
            }
        }
        lemma_plain_join(id, fields);
        lemma_line(id + fields);
        lemma_join(sats_text(t, codes), sat_text(r, codes));
    }
}

/// Epochs are ASCII.
pub proof fn lemma_epochs_ascii(epochs: Seq<EpochView<&[u8]>>, codes: Seq<Seq<ObsCode>>)
    requires
        forall|i: int| 0 <= i < epochs.len() ==> epoch_ok(#[trigger] epochs[i]),
    ensures
        is_ascii(epochs_text(epochs, codes)),
    decreases epochs.len(),
{
    if epochs.len() > 0 {
        let t = epochs.drop_last();
        assert forall|i: int| 0 <= i < t.len() implies epoch_ok(#[trigger] t[i]) by {
            assert(t[i] == epochs[i]);
        }
        lemma_epochs_ascii(t, codes);
        let e = epochs[epochs.len() - 1];
        assert(epoch_ok(e));
        let c = civil_at(e.t);
        let head = epoch_head(c, e.sats.len());
        lemma_epoch_line_plain(c, e.sats.len());
        lemma_line(head + repeated(0x20, 56 - head.len()));
        lemma_sats(e.sats, codes);
        lemma_join(epoch_first_line(c, e.sats.len()), sats_text(e.sats, codes));
        lemma_join(epochs_text(t, codes), epoch_text(e, codes));
    }
}

} // verus!
