//! The header lines about the observations of a RINEX file are read as what they
//! were written for.

use crate::cells::{
    apart, is_solid, lemma_fields_front, lemma_plain_join, lemma_row_fields, lemma_row_join,
    lemma_row_one, plain, row, solid, texts,
};
use crate::columns::{field_ranges, is_float_text, lemma_field_ranges};
use crate::header_facts::lemma_solid_plain;
use crate::header_lines::{
    filled, lemma_header_bytes, lemma_header_on, lemma_line_columns, lemma_plain_count, line_of,
};
use crate::labels::{lemma_interval, lemma_labels, lemma_plain_text, lemma_time_systems};
use crate::metadata::MetadataView;
use crate::obs::{id_text, sat_number, sat_valid, sig_valid, GpsTime, ObsCode, SatId};
use crate::reread::{
    lemma_digits_solid, lemma_padded_number, lemma_same_place, lemma_split_at, reading_text,
};
use crate::rinex_read::{
    channel_pairs, field_codes, header_from, header_step, reading, time_system_of, HeaderStep,
    ObsHeaderView,
};
use crate::rinex_write::{
    all_types_text, civil_at, code_cells, frq_cells, frq_text, header_text, lemma_civil_at,
    obs_types_text, on_line, pad_right, second_text, signed_dec, time_text,
};
use crate::rinexobs::{type_rank, SYSTEM_ORDER};
use crate::text::{
    dec, fields, int_text, is_digit, lemma_ascii_valid, lemma_dec_len, lemma_dec_value, pad_left,
    repeated, uint_text, utf8, within, zero_padded,
};
use vstd::prelude::*;

verus! {

// ---- the codes ----

/// Whether a code is of one of the four types and of a valid signal.
pub open spec fn code_ok(c: ObsCode) -> bool {
    type_rank(c.0@[0]) < 4 && sig_valid(seq![c.0@[1], c.0@[2]])
}

/// Whether all codes are of one of the four types and of valid signals.
pub open spec fn codes_ok(codes: Seq<ObsCode>) -> bool {
    forall|i: int| 0 <= i < codes.len() ==> code_ok(#[trigger] codes[i])
}

/// The codes of a line as a row.
pub open spec fn code_items(codes: Seq<ObsCode>) -> Seq<(int, Seq<u8>)> {
    Seq::new(codes.len(), |i: int| (1, codes[i].0@))
}

pub proof fn lemma_code_solid(c: ObsCode)
    requires
        code_ok(c),
    ensures
        solid(c.0@),
        c.0@.len() == 3,
        pad_right(id_text(c.0@), 3) == c.0@,
        !is_digit(c.0@[0]) && c.0@[0] != 0x2b,
{
    let b = c.0@;
    let s = seq![b[1], b[2]];
    assert(s[0] == b[1] && s[1] == b[2]);
    assert forall|i: int| 0 <= i < b.len() implies is_solid(#[trigger] b[i]) by {
        assert(i == 0 || i == 1 || i == 2);
    }
    lemma_solid_plain(b);
    lemma_plain_count(b);
    lemma_ascii_valid(b);
    assert(b + repeated(0x20, 0) =~= b);
}

pub proof fn lemma_code_cells(codes: Seq<ObsCode>)
    requires
        codes_ok(codes),
    ensures
        code_cells(codes) == row(code_items(codes)),
        code_cells(codes).len() == 4 * codes.len(),
        plain(code_cells(codes)),
        forall|i: int| 0 <= i < codes.len() ==> solid((#[trigger] codes[i]).0@),
    decreases codes.len(),
{
    if codes.len() > 0 {
        let t = codes.drop_last();
        assert(codes_ok(t)) by {
            assert forall|i: int| 0 <= i < t.len() implies code_ok(#[trigger] t[i]) by {
                assert(t[i] == codes[i]);
            }
        }
        lemma_code_cells(t);
        assert(code_ok(codes[codes.len() - 1]));
        lemma_code_solid(codes.last());
        lemma_solid_plain(codes.last().0@);
        let b = seq![0x20u8];
        lemma_plain_join(code_cells(t), b);
        lemma_plain_join(code_cells(t) + b, codes.last().0@);
        assert(code_items(codes).drop_last() =~= code_items(t));
        assert(repeated(0x20, 1) =~= b);
        assert forall|i: int| 0 <= i < codes.len() implies solid((#[trigger] codes[i]).0@) by {
            assert(code_ok(codes[i]));
            lemma_code_solid(codes[i]);
        }
    } else {
        assert(code_items(codes) =~= Seq::<(int, Seq<u8>)>::empty());
    }
}

/// The texts of codes.
pub open spec fn code_texts(codes: Seq<ObsCode>) -> Seq<Seq<u8>> {
    Seq::new(codes.len(), |i: int| codes[i].0@)
}

pub proof fn lemma_field_codes(codes: Seq<ObsCode>)
    ensures
        field_codes(code_texts(codes)) == Ok::<Seq<ObsCode>, Seq<u8>>(codes),
    decreases codes.len(),
{
    let f = code_texts(codes);
    if codes.len() > 0 {
        let t = codes.drop_last();
        lemma_field_codes(t);
        assert(f.drop_last() =~= code_texts(t));
        let c = codes.last();
        assert(f.last() == c.0@);
        assert(c.0 =~= [c.0@[0], c.0@[1], c.0@[2]]);
        assert(t.push(c) =~= codes);
    } else {
        assert(codes =~= Seq::<ObsCode>::empty());
    }
}

/// The content of a line with codes of a system.
pub open spec fn types_content(sys: u8, codes: Seq<ObsCode>, i: int) -> Seq<u8> {
    let front = if i == 0 {
        seq![sys] + pad_left(dec(codes.len()), 5, 0x20)
    } else {
        repeated(0x20, 6)
    };
    let n = on_line(codes.len() - i, 13);
    front + code_cells(codes.subrange(i, i + n))
}

/// The fields of a line with codes.
pub proof fn lemma_types_fields(sys: u8, codes: Seq<ObsCode>, i: int)
    requires
        codes_ok(codes),
        codes.len() <= 999,
        is_solid(sys),
        0 <= i < codes.len(),
    ensures
        ({
            let content = types_content(sys, codes, i);
            let sub = codes.subrange(i, i + on_line(codes.len() - i, 13));
            &&& plain(content)
            &&& fields(filled(content, 60)) == (if i == 0 {
                seq![seq![sys], dec(codes.len())] + code_texts(sub)
            } else {
                code_texts(sub)
            })
        }),
{
    let n = on_line(codes.len() - i, 13);
    let sub = codes.subrange(i, i + n);
    let content = types_content(sys, codes, i);
    assert(codes_ok(sub)) by {
        assert forall|j: int| 0 <= j < sub.len() implies code_ok(#[trigger] sub[j]) by {
            assert(sub[j] == codes[i + j]);
        }
    }
    lemma_code_cells(sub);
    let items = code_items(sub);
    if i == 0 {
        let s = seq![sys];
        let c = dec(codes.len());
        lemma_dec_len(codes.len());
        lemma_dec_value(codes.len());
        lemma_digits_solid(c);
        lemma_solid_plain(s);
        lemma_solid_plain(c);
        lemma_plain_join(repeated(0x20, 5 - c.len()), c);
        lemma_plain_join(s, pad_left(c, 5, 0x20));
        lemma_plain_join(s + pad_left(c, 5, 0x20), code_cells(sub));
        let two = seq![(0int, s)] + seq![(5 - c.len(), c)];
        lemma_row_one(0, s);
        lemma_row_one(5 - c.len(), c);
        lemma_row_join(seq![(0int, s)], seq![(5 - c.len(), c)]);
        lemma_row_join(two, items);
        let all = two + items;
        assert(row(all) =~= content);
        assert(apart(all)) by {
            assert forall|j: int| 0 <= j < all.len() implies ({
                &&& (#[trigger] all[j]).1.len() > 0
                &&& solid(all[j].1)
                &&& all[j].0 >= 0
                &&& j > 0 ==> all[j].0 >= 1
            }) by {
                if j == 0 {
                    assert(all[j] == (0int, s));
                } else if j == 1 {
                    assert(all[j] == (5 - c.len(), c));
                } else {
                    assert(all[j] == (1int, sub[j - 2].0@));
                }
            }
        }
        lemma_row_fields(all, 60 - content.len());
        assert(filled(content, 60) =~= row(all) + repeated(0x20, 60 - content.len()));
        assert(texts(all) =~= seq![s, c] + code_texts(sub));
    } else {
        let b = repeated(0x20, 6);
        lemma_plain_join(b, code_cells(sub));
        assert(apart(items)) by {
            assert forall|j: int| 0 <= j < items.len() implies ({
                &&& (#[trigger] items[j]).1.len() > 0
                &&& solid(items[j].1)
                &&& items[j].0 >= 0
                &&& j > 0 ==> items[j].0 >= 1
            }) by {
                assert(items[j] == (1int, sub[j].0@));
            }
        }
        let tail = row(items) + repeated(0x20, 60 - content.len());
        lemma_row_fields(items, 60 - content.len());
        lemma_fields_front(6, tail);
        assert(filled(content, 60) =~= b + tail);
        assert(texts(items) =~= code_texts(sub));
    }
}

/// What a line with codes does to the lists of codes.
pub proof fn lemma_types_step(h: ObsHeaderView, k: int, codes: Seq<ObsCode>, i: int, pos: int)
    requires
        0 <= k < 7,
        h.codes.len() == 7,
        codes_ok(codes),
        codes.len() <= 999,
        0 <= i < codes.len(),
        i > 0 ==> h.sys == SYSTEM_ORDER@[k],
    ensures
        plain(types_content(SYSTEM_ORDER@[k], codes, i)),
        header_step(
            h,
            line_of(types_content(SYSTEM_ORDER@[k], codes, i), utf8("SYS / # / OBS TYPES"@)),
            pos,
        ) == HeaderStep::More(
            ObsHeaderView {
                sys: SYSTEM_ORDER@[k],
                codes: h.codes.update(
                    k,
                    h.codes[k] + codes.subrange(i, i + on_line(codes.len() - i, 13)),
                ),
                ..h
            },
        ),
{
    reveal(header_step);
    let sys = SYSTEM_ORDER@[k];
    let n = on_line(codes.len() - i, 13);
    let sub = codes.subrange(i, i + n);
    let content = types_content(sys, codes, i);
    lemma_types_fields(sys, codes, i);
    lemma_field_codes(sub);
    let f = fields(filled(content, 60));
    assert(code_ok(codes[i]));
    lemma_code_solid(codes[i]);
    if i == 0 {
        lemma_dec_value(codes.len());
        assert(is_digit(dec(codes.len())[0]));
        assert(f[0] == seq![sys] && f[1] == dec(codes.len()));
        assert(f.skip(2) =~= code_texts(sub));
        assert(within(uint_text(f[1]), 0, usize::MAX as int) is Some);
    } else {
        assert(f[0] == codes[i].0@);
        assert(f.skip(0) =~= code_texts(sub));
        assert(uint_text(f[0]) is None);
    }
    lemma_labels();
    lemma_line_columns(content, utf8("SYS / # / OBS TYPES"@));
}

/// The header after the lines with the codes of a system.
pub open spec fn types_after(h: ObsHeaderView, k: int, codes: Seq<ObsCode>, i: int) -> ObsHeaderView {
    ObsHeaderView {
        sys: if i < codes.len() {
            SYSTEM_ORDER@[k]
        } else {
            h.sys
        },
        codes: h.codes.update(k, codes),
        ..h
    }
}

pub proof fn lemma_types_lines(
    d: Seq<u8>,
    pos: int,
    h: ObsHeaderView,
    k: int,
    codes: Seq<ObsCode>,
    i: int,
    rest: Seq<u8>,
)
    requires
        0 <= pos <= d.len(),
        d.skip(pos) == obs_types_text(SYSTEM_ORDER@[k], codes, i) + rest,
        0 <= k < 7,
        h.codes.len() == 7,
        codes_ok(codes),
        codes.len() <= 999,
        0 <= i,
        h.codes[k] == codes.take(if i < codes.len() {
            i
        } else {
            codes.len() as int
        }),
        i > 0 ==> h.sys == SYSTEM_ORDER@[k],
    ensures
        header_from(d, pos, h) == header_from(
            d,
            pos + obs_types_text(SYSTEM_ORDER@[k], codes, i).len(),
            types_after(h, k, codes, i),
        ),
        d.skip(pos + obs_types_text(SYSTEM_ORDER@[k], codes, i).len()) == rest,
        pos + obs_types_text(SYSTEM_ORDER@[k], codes, i).len() <= d.len(),
    decreases codes.len() + 13 - i,
{
    let sys = SYSTEM_ORDER@[k];
    let text = obs_types_text(sys, codes, i);
    lemma_split_at(d, pos, text, rest);
    if i >= codes.len() {
        assert(codes.take(codes.len() as int) =~= codes);
        assert(h.codes.update(k, codes) =~= h.codes);
    } else {
        let n = on_line(codes.len() - i, 13);
        let content = types_content(sys, codes, i);
        let label = utf8("SYS / # / OBS TYPES"@);
        let more = obs_types_text(sys, codes, i + 13);
        let after = ObsHeaderView {
            sys,
            codes: h.codes.update(k, h.codes[k] + codes.subrange(i, i + n)),
            ..h
        };
        lemma_types_step(h, k, codes, i, pos);
        lemma_labels();
        lemma_header_bytes(content, label);
        assert(text + rest =~= header_text(content, label) + (more + rest));
        lemma_header_on(d, pos, content, label, more + rest, h, after);
        let j = if i + 13 < codes.len() {
            i + 13
        } else {
            codes.len() as int
        };
        assert(codes.take(i) + codes.subrange(i, i + n) =~= codes.take(j));
        lemma_types_lines(d, pos + 81, after, k, codes, i + 13, rest);
        assert(after.codes.update(k, codes) =~= h.codes.update(k, codes));
        assert(types_after(after, k, codes, i + 13) == types_after(h, k, codes, i));
    }
}

/// The header after the lines with the codes of the first `k` systems.
pub open spec fn all_types_after(h: ObsHeaderView, codes: Seq<Seq<ObsCode>>, k: int) -> ObsHeaderView
    decreases k,
{
    if k <= 0 {
        h
    } else {
        types_after(all_types_after(h, codes, k - 1), k - 1, codes[k - 1], 0)
    }
}

/// Whether the codes of each system can be read again.
pub open spec fn lists_ok(codes: Seq<Seq<ObsCode>>) -> bool {
    &&& codes.len() == 7
    &&& forall|k: int| 0 <= k < 7 ==> codes_ok(#[trigger] codes[k]) && codes[k].len() <= 999
}

pub proof fn lemma_all_types(
    d: Seq<u8>,
    pos: int,
    h: ObsHeaderView,
    codes: Seq<Seq<ObsCode>>,
    k: int,
    rest: Seq<u8>,
)
    requires
        0 <= pos <= d.len(),
        d.skip(pos) == all_types_text(codes, k) + rest,
        0 <= k <= 7,
        lists_ok(codes),
        h.codes == Seq::new(7, |j: int| Seq::<ObsCode>::empty()),
    ensures
        header_from(d, pos, h) == header_from(
            d,
            pos + all_types_text(codes, k).len(),
            all_types_after(h, codes, k),
        ),
        d.skip(pos + all_types_text(codes, k).len()) == rest,
        pos + all_types_text(codes, k).len() <= d.len(),
        ({
            let after = all_types_after(h, codes, k);
            &&& after == ObsHeaderView { sys: after.sys, codes: after.codes, ..h }
            &&& after.codes.len() == 7
            &&& forall|j: int| 0 <= j < k ==> #[trigger] after.codes[j] == codes[j]
            &&& forall|j: int| k <= j < 7 ==> #[trigger] after.codes[j] == Seq::<ObsCode>::empty()
        }),
    decreases k,
{
    let text = all_types_text(codes, k);
    if k == 0 {
        assert(text + rest =~= rest);
    } else {
        let last = obs_types_text(SYSTEM_ORDER@[k - 1], codes[k - 1], 0);
        assert(text + rest =~= all_types_text(codes, k - 1) + (last + rest));
        lemma_all_types(d, pos, h, codes, k - 1, last + rest);
        let before = all_types_after(h, codes, k - 1);
        assert(codes_ok(codes[k - 1]));
        assert(codes[k - 1].take(0) =~= Seq::<ObsCode>::empty());
        if codes[k - 1].len() == 0 {
            assert(codes[k - 1] =~= Seq::<ObsCode>::empty());
        }
        lemma_types_lines(
            d,
            pos + all_types_text(codes, k - 1).len(),
            before,
            k - 1,
            codes[k - 1],
            0,
            rest,
        );
    }
}

// ---- the interval, the leap seconds, and the time ----

/// Whether the text of an interval can be read again.
pub open spec fn interval_ok(x: Option<&[u8]>) -> bool {
    x matches Some(v) ==> 0 < v@.len() <= 60 && solid(v@) && is_float_text(v@)
}

/// A text behind blanks is the only field of its line.
pub proof fn lemma_one_field(s: Seq<u8>, w: int)
    requires
        0 < s.len() <= 60,
        0 <= w <= 60,
        solid(s),
    ensures
        plain(pad_left(s, w, 0x20)),
        fields(filled(pad_left(s, w, 0x20), 60)) == seq![s],
{
    let n = if w > s.len() {
        w - s.len()
    } else {
        0
    };
    let content = pad_left(s, w, 0x20);
    assert(repeated(0x20, w - s.len()) =~= repeated(0x20, n));
    lemma_solid_plain(s);
    lemma_plain_join(repeated(0x20, n), s);
    lemma_row_one(n, s);
    let items = seq![(n, s)];
    assert(apart(items));
    lemma_row_fields(items, 60 - content.len());
    assert(filled(content, 60) =~= row(items) + repeated(0x20, 60 - content.len()));
    assert(texts(items) =~= seq![s]);
}

/// The place of an interval in its line.
pub open spec fn interval_place(x: Seq<u8>) -> (int, int) {
    field_ranges(filled(pad_left(x, 10, 0x20), 60), 0)[0]
}

pub proof fn lemma_interval_place(d: Seq<u8>, x: Seq<u8>, pos: int)
    requires
        0 < x.len() <= 60,
        solid(x),
        0 <= pos,
        pos + 80 <= d.len() <= usize::MAX,
        d.subrange(pos, pos + 80) == line_of(pad_left(x, 10, 0x20), utf8("INTERVAL"@)),
    ensures
        reading_text(d, reading(pos, interval_place(x))) == x,
{
    let content = pad_left(x, 10, 0x20);
    let label = utf8("INTERVAL"@);
    let all = filled(content, 60);
    lemma_one_field(x, 10);
    lemma_interval();
    lemma_line_columns(content, label);
    lemma_field_ranges(all, 0);
    assert(all.skip(0) =~= all);
    assert(fields(all)[0] == x);
    assert(line_of(content, label).subrange(0, 60) =~= all);
    let r = field_ranges(all, 0)[0];
    assert(all.subrange(r.0, r.1) == x);
    lemma_same_place(d, pos, line_of(content, label), 0, all, r);
}

/// The line with the interval.
pub proof fn lemma_interval_step(h: ObsHeaderView, x: Seq<u8>, pos: int)
    requires
        0 < x.len() <= 60,
        solid(x),
        is_float_text(x),
    ensures
        header_step(h, line_of(pad_left(x, 10, 0x20), utf8("INTERVAL"@)), pos)
            == HeaderStep::More(
            ObsHeaderView {
                meta: MetadataView {
                    interval: Some(reading(pos, interval_place(x))),
                    ..h.meta
                },
                ..h
            },
        ),
{
    reveal(header_step);
    let content = pad_left(x, 10, 0x20);
    let label = utf8("INTERVAL"@);
    lemma_one_field(x, 10);
    lemma_labels();
    lemma_line_columns(content, label);
    assert(fields(filled(content, 60))[0] == x);
}

/// A signed number is read as the number.
pub proof fn lemma_signed(n: int)
    ensures
        signed_dec(n).len() > 0,
        solid(signed_dec(n)),
        int_text(signed_dec(n)) == Some(n),
{
    let s = signed_dec(n);
    if n < 0 {
        let t = dec((-n) as nat);
        lemma_dec_value((-n) as nat);
        lemma_digits_solid(t);
        assert(s.skip(1) =~= t);
        assert forall|i: int| 0 <= i < s.len() implies is_solid(#[trigger] s[i]) by {
            if i > 0 {
                assert(s[i] == t[i - 1]);
            }
        }
    } else {
        lemma_dec_value(n as nat);
        lemma_digits_solid(s);
        assert(is_digit(s[0]));
    }
}

pub proof fn lemma_signed_len(n: int)
    ensures
        -9_999_999 < n < 10_000_000 ==> signed_dec(n).len() <= 8,
        -10 < n < 100 ==> signed_dec(n).len() <= 2,
        1000 <= n < 10000 ==> signed_dec(n).len() == 4,
{
    if n < 0 {
        lemma_dec_len((-n) as nat);
    } else {
        lemma_dec_len(n as nat);
    }
}

/// The line with the leap seconds.
pub proof fn lemma_leap_step(h: ObsHeaderView, n: i16, pos: int)
    ensures
        plain(pad_left(signed_dec(n as int), 6, 0x20)),
        header_step(
            h,
            line_of(pad_left(signed_dec(n as int), 6, 0x20), utf8("LEAP SECONDS"@)),
            pos,
        ) == HeaderStep::More(
            ObsHeaderView { meta: MetadataView { leap_seconds: Some(n), ..h.meta }, ..h },
        ),
{
    reveal(header_step);
    let s = signed_dec(n as int);
    lemma_signed(n as int);
    lemma_signed_len(n as int);
    lemma_one_field(s, 6);
    lemma_labels();
    lemma_line_columns(pad_left(s, 6, 0x20), utf8("LEAP SECONDS"@));
    let f = fields(filled(pad_left(s, 6, 0x20), 60));
    assert(f[0] == s);
    assert(within(int_text(s), i64::MIN as int, i64::MAX as int) == Some(n as int));
}

pub proof fn lemma_gps_suffix()
    ensures
        utf8("     GPS"@) == repeated(0x20, 5) + utf8("GPS"@),
        solid(utf8("GPS"@)),
        utf8("GPS"@).len() == 3,
{
    let s = utf8("     GPS"@);
    reveal_strlit("     GPS");
    lemma_plain_text("     GPS"@);
    lemma_time_systems();
    assert(s[0] == 0x20 && s[1] == 0x20 && s[2] == 0x20 && s[3] == 0x20 && s[4] == 0x20);
    assert(s[5] == 0x47 && s[6] == 0x50 && s[7] == 0x53);
    assert(s =~= repeated(0x20, 5) + utf8("GPS"@));
    let g = utf8("GPS"@);
    assert forall|i: int| 0 <= i < g.len() implies is_solid(#[trigger] g[i]) by {
        assert(i == 0 || i == 1 || i == 2);
    }
}

pub proof fn lemma_time_row(
    y: Seq<u8>,
    mo: Seq<u8>,
    d: Seq<u8>,
    h: Seq<u8>,
    mi: Seq<u8>,
    s: Seq<u8>,
    g: Seq<u8>,
)
    requires
        y.len() == 4 && solid(y),
        mo.len() == 2 && solid(mo),
        d.len() == 2 && solid(d),
        h.len() == 2 && solid(h),
        mi.len() == 2 && solid(mi),
        s.len() == 10 && solid(s),
        g.len() == 3 && solid(g),
    ensures
        ({
            let text = pad_left(y, 6, 0x20) + pad_left(mo, 6, 0x20) + pad_left(d, 6, 0x20)
                + pad_left(h, 6, 0x20) + pad_left(mi, 6, 0x20) + pad_left(s, 13, 0x20) + (
            repeated(0x20, 5) + g);
            &&& text.len() == 51
            &&& plain(text)
            &&& fields(filled(text, 60)) == seq![y, mo, d, h, mi, s, g]
        }),
{
    let text = pad_left(y, 6, 0x20) + pad_left(mo, 6, 0x20) + pad_left(d, 6, 0x20) + pad_left(
        h,
        6,
        0x20,
    ) + pad_left(mi, 6, 0x20) + pad_left(s, 13, 0x20) + (repeated(0x20, 5) + g);
    let i1 = seq![(2int, y)];
    let i2 = i1 + seq![(4int, mo)];
    let i3 = i2 + seq![(4int, d)];
    let i4 = i3 + seq![(4int, h)];
    let i5 = i4 + seq![(4int, mi)];
    let i6 = i5 + seq![(3int, s)];
    let i7 = i6 + seq![(5int, g)];
    lemma_row_one(2, y);
    lemma_row_one(4, mo);
    lemma_row_one(4, d);
    lemma_row_one(4, h);
    lemma_row_one(4, mi);
    lemma_row_one(3, s);
    lemma_row_one(5, g);
    lemma_row_join(i1, seq![(4int, mo)]);
    lemma_row_join(i2, seq![(4int, d)]);
    lemma_row_join(i3, seq![(4int, h)]);
    lemma_row_join(i4, seq![(4int, mi)]);
    lemma_row_join(i5, seq![(3int, s)]);
    lemma_row_join(i6, seq![(5int, g)]);
    assert(row(i7) == text);
    assert(apart(i7)) by {
        assert(i7 =~= seq![
            (2int, y),
            (4int, mo),
            (4int, d),
            (4int, h),
            (4int, mi),
            (3int, s),
            (5int, g),
        ]);
    }
    lemma_row_plain(i7);
    lemma_row_fields(i7, 9);
    assert(filled(text, 60) =~= row(i7) + repeated(0x20, 9));
    assert(texts(i7) =~= seq![y, mo, d, h, mi, s, g]);
}

pub proof fn lemma_row_plain(items: Seq<(int, Seq<u8>)>)
    requires
        apart(items),
    ensures
        plain(row(items)),
    decreases items.len(),
{
    if items.len() > 0 {
        let t = items.drop_last();
        assert(apart(t)) by {
            assert forall|i: int| 0 <= i < t.len() implies ({
                &&& (#[trigger] t[i]).1.len() > 0
                &&& solid(t[i].1)
                &&& t[i].0 >= 0
                &&& i > 0 ==> t[i].0 >= 1
            }) by {
                assert(t[i] == items[i]);
            }
        }
        lemma_row_plain(t);
        let last = items[items.len() - 1];
        lemma_solid_plain(last.1);
        lemma_plain_join(row(t), repeated(0x20, last.0));
        lemma_plain_join(row(t) + repeated(0x20, last.0), last.1);
    }
}

/// The fields of a line with a time.
pub proof fn lemma_time_fields(t: GpsTime)
    requires
        t.in_range(),
    ensures
        plain(time_text(civil_at(t))),
        time_system_of(fields(filled(time_text(civil_at(t)), 60))) == Some(utf8("GPS"@)),
{
    let c = civil_at(t);
    lemma_civil_at(t);
    crate::calendar::lemma_civil_days(c.year as int, c.month as int, c.day as int);
    lemma_dec_len(c.month as nat);
    lemma_dec_len(c.day as nat);
    lemma_dec_len(c.hour as nat);
    lemma_dec_len(c.minute as nat);
    lemma_dec_len(c.second as nat);
    lemma_dec_len(c.nanos as nat / 100);
    lemma_padded_number(c.month as nat, 2);
    lemma_padded_number(c.day as nat, 2);
    lemma_padded_number(c.hour as nat, 2);
    lemma_padded_number(c.minute as nat, 2);
    lemma_padded_number(c.second as nat, 2);
    lemma_padded_number(c.nanos as nat / 100, 7);
    lemma_signed(c.year as int);
    lemma_signed_len(c.year as int);
    let s = second_text(c);
    let whole = zero_padded(c.second as nat, 2);
    let fraction = zero_padded(c.nanos as nat / 100, 7);
    assert forall|i: int| 0 <= i < s.len() implies is_solid(#[trigger] s[i]) by {
        if i < 2 {
            assert(s[i] == whole[i]);
        } else if i > 2 {
            assert(s[i] == fraction[i - 3]);
        }
    }
    lemma_gps_suffix();
    lemma_time_row(
        signed_dec(c.year as int),
        zero_padded(c.month as nat, 2),
        zero_padded(c.day as nat, 2),
        zero_padded(c.hour as nat, 2),
        zero_padded(c.minute as nat, 2),
        s,
        utf8("GPS"@),
    );
}

/// The line with the time of the first observation.
pub proof fn lemma_first_step(h: ObsHeaderView, t: GpsTime, pos: int)
    requires
        t.in_range(),
    ensures
        plain(time_text(civil_at(t))),
        header_step(h, line_of(time_text(civil_at(t)), utf8("TIME OF FIRST OBS"@)), pos)
            == HeaderStep::More(ObsHeaderView { time_system: utf8("GPS"@), ..h }),
{
    reveal(header_step);
    lemma_time_fields(t);
    lemma_labels();
    lemma_line_columns(time_text(civil_at(t)), utf8("TIME OF FIRST OBS"@));
}

/// The line with the time of the last observation.
pub proof fn lemma_last_step(h: ObsHeaderView, t: GpsTime, pos: int)
    requires
        t.in_range(),
        h.time_system == utf8("GPS"@),
    ensures
        plain(time_text(civil_at(t))),
        header_step(h, line_of(time_text(civil_at(t)), utf8("TIME OF LAST OBS"@)), pos)
            == HeaderStep::More(h),
{
    reveal(header_step);
    lemma_time_fields(t);
    lemma_labels();
    lemma_gps_suffix();
    lemma_line_columns(time_text(civil_at(t)), utf8("TIME OF LAST OBS"@));
}

pub proof fn lemma_bias_plain()
    ensures
        plain(utf8(" C1C    0.000 C1P    0.000 C2C    0.000 C2P    0.000"@)),
{
    reveal_strlit(" C1C    0.000 C1P    0.000 C2C    0.000 C2P    0.000");
    lemma_plain_text(" C1C    0.000 C1P    0.000 C2C    0.000 C2P    0.000"@);
}

/// The line with the biases says nothing that is kept.
pub proof fn lemma_bias_step(h: ObsHeaderView, pos: int)
    ensures
        header_step(
            h,
            line_of(
                utf8(" C1C    0.000 C1P    0.000 C2C    0.000 C2P    0.000"@),
                utf8("GLONASS COD/PHS/BIS"@),
            ),
            pos,
        ) == HeaderStep::More(h),
{
    reveal(header_step);
    lemma_bias_plain();
    lemma_labels();
    lemma_line_columns(
        utf8(" C1C    0.000 C1P    0.000 C2C    0.000 C2P    0.000"@),
        utf8("GLONASS COD/PHS/BIS"@),
    );
}

/// The last line of the header.
pub proof fn lemma_end_step(h: ObsHeaderView, pos: int)
    requires
        h.time_system == utf8("GPS"@),
    ensures
        header_step(h, line_of(Seq::empty(), utf8("END OF HEADER"@)), pos) == HeaderStep::Done(h),
{
    reveal(header_step);
    lemma_labels();
    lemma_gps_suffix();
    lemma_line_columns(Seq::empty(), utf8("END OF HEADER"@));
}

// ---- the channels ----

/// Whether a channel stands apart from its satellite, which is a valid one.
pub open spec fn channel_ok(e: (SatId, i8)) -> bool {
    sat_valid(e.0.0@) && -10 < e.1 < 100
}

/// Whether all channels stand apart from their satellites.
pub open spec fn channels_ok(l: Seq<(SatId, i8)>) -> bool {
    forall|i: int| 0 <= i < l.len() ==> channel_ok(#[trigger] l[i])
}

/// The channels of a line as a row.
pub open spec fn channel_items(l: Seq<(SatId, i8)>) -> Seq<(int, Seq<u8>)>
    decreases l.len(),
{
    if l.len() == 0 {
        Seq::empty()
    } else {
        let n = signed_dec(l.last().1 as int);
        channel_items(l.drop_last()) + seq![(1int, l.last().0.0@)] + seq![(3 - n.len(), n)]
    }
}

pub proof fn lemma_sat_solid(sat: SatId)
    requires
        sat_valid(sat.0@),
    ensures
        solid(sat.0@),
        sat.0@.len() == 3,
        pad_right(id_text(sat.0@), 3) == sat.0@,
        int_text(sat.0@) is None,
{
    let b = sat.0@;
    assert forall|i: int| 0 <= i < b.len() implies is_solid(#[trigger] b[i]) by {
        assert(i == 0 || i == 1 || i == 2);
    }
    lemma_solid_plain(b);
    lemma_plain_count(b);
    lemma_ascii_valid(b);
    assert(b + repeated(0x20, 0) =~= b);
    assert(!is_digit(b[0]));
}

pub proof fn lemma_channel_cells(l: Seq<(SatId, i8)>)
    requires
        channels_ok(l),
    ensures
        frq_cells(l) == row(channel_items(l)),
        frq_cells(l).len() == 7 * l.len(),
        channel_items(l).len() == 2 * l.len(),
        forall|i: int|
            0 <= i < channel_items(l).len() ==> {
                &&& (#[trigger] channel_items(l)[i]).1.len() > 0
                &&& solid(channel_items(l)[i].1)
                &&& channel_items(l)[i].0 >= 1
            },
        forall|i: int|
            0 <= i < l.len() ==> channel_items(l)[2 * i].1 == (#[trigger] l[i]).0.0@
                && channel_items(l)[2 * i + 1].1 == signed_dec(l[i].1 as int),
    decreases l.len(),
{
    if l.len() > 0 {
        let t = l.drop_last();
        assert(channels_ok(t)) by {
            assert forall|i: int| 0 <= i < t.len() implies channel_ok(#[trigger] t[i]) by {
                assert(t[i] == l[i]);
            }
        }
        lemma_channel_cells(t);
        assert(channel_ok(l[l.len() - 1]));
        let sat = l.last().0;
        let n = signed_dec(l.last().1 as int);
        lemma_sat_solid(sat);
        lemma_signed(l.last().1 as int);
        lemma_signed_len(l.last().1 as int);
        let a = channel_items(t);
        lemma_row_one(1, sat.0@);
        lemma_row_one(3 - n.len(), n);
        lemma_row_join(a, seq![(1int, sat.0@)]);
        lemma_row_join(a + seq![(1int, sat.0@)], seq![(3 - n.len(), n)]);
        assert(repeated(0x20, 1) =~= seq![0x20u8]);
        assert(frq_cells(l) =~= row(channel_items(l)));
        let all = channel_items(l);
        assert forall|i: int| 0 <= i < all.len() implies ({
            &&& (#[trigger] all[i]).1.len() > 0
            &&& solid(all[i].1)
            &&& all[i].0 >= 1
        }) by {
            if i < a.len() {
                assert(all[i] == a[i]);
            }
        }
        assert forall|i: int| 0 <= i < l.len() implies all[2 * i].1 == (#[trigger] l[i]).0.0@
            && all[2 * i + 1].1 == signed_dec(l[i].1 as int) by {
            if i < t.len() {
                assert(t[i] == l[i]);
                assert(all[2 * i] == a[2 * i] && all[2 * i + 1] == a[2 * i + 1]);
            }
        }
    }
}

/// Channels put into a map.
pub open spec fn channels_in(l: Seq<(SatId, i8)>, m: Map<u64, i8>) -> Map<u64, i8>
    decreases l.len(),
{
    if l.len() == 0 {
        m
    } else {
        channels_in(l.drop_last(), m).insert(sat_number(l.last().0), l.last().1)
    }
}

/// The pairs of fields of channels give the channels.
pub proof fn lemma_pairs(f: Seq<Seq<u8>>, i: int, l: Seq<(SatId, i8)>, m: Map<u64, i8>)
    requires
        0 <= i,
        f.len() == i + 2 * l.len(),
        channels_ok(l),
        forall|j: int|
            0 <= j < l.len() ==> f[i + 2 * j] == (#[trigger] l[j]).0.0@ && f[i + 2 * j + 1]
                == signed_dec(l[j].1 as int),
    ensures
        channel_pairs(f, i, m) == Ok::<Map<u64, i8>, Seq<char>>(channels_in(l, m)),
    decreases l.len(),
{
    if l.len() > 0 {
        let e = l[0];
        let t = l.skip(1);
        let next = m.insert(sat_number(e.0), e.1);
        assert(channel_ok(e));
        assert(f[i + 2 * 0] == e.0.0@ && f[i + 2 * 0 + 1] == signed_dec(e.1 as int));
        lemma_signed(e.1 as int);
        assert(e.0.0 =~= [e.0.0@[0], e.0.0@[1], e.0.0@[2]]);
        assert forall|j: int| 0 <= j < t.len() implies f[i + 2 + 2 * j] == (
        #[trigger] t[j]).0.0@ && f[i + 2 + 2 * j + 1] == signed_dec(t[j].1 as int) by {
            assert(t[j] == l[j + 1]);
            assert(f[i + 2 * (j + 1)] == l[j + 1].0.0@);
        }
        assert(channels_ok(t)) by {
            assert forall|j: int| 0 <= j < t.len() implies channel_ok(#[trigger] t[j]) by {
                assert(t[j] == l[j + 1]);
            }
        }
        lemma_pairs(f, i + 2, t, next);
        lemma_channels_front(l, m);
    }
}

pub proof fn lemma_channels_front(l: Seq<(SatId, i8)>, m: Map<u64, i8>)
    requires
        l.len() > 0,
    ensures
        channels_in(l, m) == channels_in(l.skip(1), m.insert(sat_number(l[0].0), l[0].1)),
    decreases l.len(),
{
    let t = l.skip(1);
    if t.len() == 0 {
        assert(channels_in(l.drop_last(), m) == m);
    } else {
        lemma_channels_front(l.drop_last(), m);
        assert(l.drop_last().skip(1) =~= t.drop_last());
    }
}

pub proof fn lemma_channels_join(a: Seq<(SatId, i8)>, b: Seq<(SatId, i8)>, m: Map<u64, i8>)
    ensures
        channels_in(a + b, m) == channels_in(b, channels_in(a, m)),
    decreases b.len(),
{
    if b.len() == 0 {
        assert(a + b =~= a);
    } else {
        lemma_channels_join(a, b.drop_last(), m);
        assert((a + b).drop_last() =~= a + b.drop_last());
    }
}

/// The content of a line with channels.
pub open spec fn channel_content(l: Seq<(SatId, i8)>, i: int) -> Seq<u8> {
    let front = if i == 0 {
        pad_left(dec(l.len()), 3, 0x20)
    } else {
        repeated(0x20, 3)
    };
    let n = on_line(l.len() - i, 8);
    front + frq_cells(l.subrange(i, i + n))
}

/// The line with channels.
pub proof fn lemma_channel_fields(l: Seq<(SatId, i8)>, i: int)
    requires
        channels_ok(l),
        l.len() <= 999,
        0 <= i < l.len(),
    ensures
        plain(channel_content(l, i)),
        ({
            let sub = l.subrange(i, i + on_line(l.len() - i, 8));
            fields(filled(channel_content(l, i), 60)) == (if i == 0 {
                seq![dec(l.len())] + texts(channel_items(sub))
            } else {
                texts(channel_items(sub))
            })
        }),
{
    let n = on_line(l.len() - i, 8);
    let sub = l.subrange(i, i + n);
    let content = channel_content(l, i);
    assert(channels_ok(sub)) by {
        assert forall|j: int| 0 <= j < sub.len() implies channel_ok(#[trigger] sub[j]) by {
            assert(sub[j] == l[i + j]);
        }
    }
    lemma_channel_cells(sub);
    let items = channel_items(sub);
    if i == 0 {
        let c = dec(l.len());
        lemma_dec_len(l.len());
        lemma_dec_value(l.len());
        lemma_digits_solid(c);
        lemma_row_one(3 - c.len(), c);
        let one = seq![(3 - c.len(), c)];
        lemma_row_join(one, items);
        let all = one + items;
        assert(row(all) =~= content);
        assert(apart(all)) by {
            assert forall|j: int| 0 <= j < all.len() implies ({
                &&& (#[trigger] all[j]).1.len() > 0
                &&& solid(all[j].1)
                &&& all[j].0 >= 0
                &&& j > 0 ==> all[j].0 >= 1
            }) by {
                if j > 0 {
                    assert(all[j] == items[j - 1]);
                }
            }
        }
        lemma_row_plain(all);
        lemma_row_fields(all, 60 - content.len());
        assert(filled(content, 60) =~= row(all) + repeated(0x20, 60 - content.len()));
        assert(texts(all) =~= seq![c] + texts(items));
    } else {
        assert(apart(items));
        lemma_row_plain(items);
        lemma_plain_join(repeated(0x20, 3), row(items));
        let tail = row(items) + repeated(0x20, 60 - content.len());
        lemma_row_fields(items, 60 - content.len());
        lemma_fields_front(3, tail);
        assert(filled(content, 60) =~= repeated(0x20, 3) + tail);
    }
}

pub proof fn lemma_channels_step(h: ObsHeaderView, l: Seq<(SatId, i8)>, i: int, pos: int)
    requires
        channels_ok(l),
        l.len() <= 999,
        0 <= i < l.len(),
    ensures
        header_step(h, line_of(channel_content(l, i), utf8("GLONASS SLOT / FRQ #"@)), pos)
            == HeaderStep::More(
            ObsHeaderView {
                frq: channels_in(l.subrange(i, i + on_line(l.len() - i, 8)), h.frq),
                ..h
            },
        ),
{
    reveal(header_step);
    let n = on_line(l.len() - i, 8);
    let sub = l.subrange(i, i + n);
    let content = channel_content(l, i);
    lemma_channel_fields(l, i);
    assert(channels_ok(sub)) by {
        assert forall|j: int| 0 <= j < sub.len() implies channel_ok(#[trigger] sub[j]) by {
            assert(sub[j] == l[i + j]);
        }
    }
    lemma_channel_cells(sub);
    let items = channel_items(sub);
    let f = fields(filled(content, 60));
    let start: int = if i == 0 {
        1
    } else {
        0
    };
    assert forall|j: int| 0 <= j < sub.len() implies f[start + 2 * j] == (#[trigger] sub[j]).0.0@
        && f[start + 2 * j + 1] == signed_dec(sub[j].1 as int) by {
        assert(f[start + 2 * j] == items[2 * j].1);
        assert(f[start + 2 * j + 1] == items[2 * j + 1].1);
    }
    lemma_pairs(f, start, sub, h.frq);
    if i == 0 {
        assert(f[0] == dec(l.len()));
        lemma_signed(l.len() as int);
    } else {
        assert(sub[0] == l[i]);
        assert(channel_ok(sub[0]));
        assert(f[start + 2 * 0] == sub[0].0.0@);
        lemma_sat_solid(sub[0].0);
    }
    lemma_labels();
    lemma_line_columns(content, utf8("GLONASS SLOT / FRQ #"@));
}

pub proof fn lemma_channel_lines(
    d: Seq<u8>,
    pos: int,
    h: ObsHeaderView,
    l: Seq<(SatId, i8)>,
    i: int,
    m: Map<u64, i8>,
    rest: Seq<u8>,
)
    requires
        0 <= pos <= d.len(),
        d.skip(pos) == frq_text(l, i) + rest,
        channels_ok(l),
        l.len() <= 999,
        0 <= i,
        h.frq == channels_in(
            l.take(if i < l.len() {
                i
            } else {
                l.len() as int
            }),
            m,
        ),
    ensures
        header_from(d, pos, h) == header_from(
            d,
            pos + frq_text(l, i).len(),
            ObsHeaderView { frq: channels_in(l, m), ..h },
        ),
        d.skip(pos + frq_text(l, i).len()) == rest,
        pos + frq_text(l, i).len() <= d.len(),
    decreases l.len() + 8 - i,
{
    let text = frq_text(l, i);
    lemma_split_at(d, pos, text, rest);
    if i >= l.len() {
        assert(l.take(l.len() as int) =~= l);
    } else {
        let n = on_line(l.len() - i, 8);
        let sub = l.subrange(i, i + n);
        let content = channel_content(l, i);
        let label = utf8("GLONASS SLOT / FRQ #"@);
        let more = frq_text(l, i + 8);
        let after = ObsHeaderView { frq: channels_in(sub, h.frq), ..h };
        lemma_channels_step(h, l, i, pos);
        lemma_channel_fields(l, i);
        lemma_labels();
        lemma_header_bytes(content, label);
        assert(text + rest =~= header_text(content, label) + (more + rest));
        lemma_header_on(d, pos, content, label, more + rest, h, after);
        let j = if i + 8 < l.len() {
            i + 8
        } else {
            l.len() as int
        };
        assert(l.take(i) + sub =~= l.take(j));
        lemma_channels_join(l.take(i), sub, m);
        lemma_channel_lines(d, pos + 81, after, l, i + 8, m, rest);
    }
}

} // verus!
