//! What fits the columns of a RINEX header comes back whole.

use crate::calendar::{days_before_month, lemma_civil_days, lemma_date_of, lemma_epoch_days_ordered};
use crate::cells::{
    apart, firm, is_solid, lemma_fields_blank, lemma_fields_cell, lemma_row_fields,
    lemma_row_join, lemma_row_one, lemma_trimmed, row, solid, texts,
};
use crate::header_facts::{
    comment_kept, date_kept, kept, lemma_solid_plain, plain_text, version_kept,
};
use crate::header_lines::{filled, lemma_plain_chars, lemma_plain_count};
use crate::labels::lemma_plain_text;
use crate::metadata::MetadataView;
use crate::obs::{Civil, Instant};
use crate::reheader::facts_read;
use crate::reread::lemma_padded_number;
use crate::rinex_read::{without_blanks, Reading};
use crate::rinex_write::{civil_of, lemma_instant_civil, version_text};
use crate::text::{fields, lemma_dec_len, lossy_text, repeated, utf8, zero_padded};
use vstd::prelude::*;

verus! {

/// Whether a text fits `n` columns whole: it has no blanks around it, and no more
/// characters.
pub open spec fn fits(s: Seq<char>, n: int) -> bool {
    plain_text(s) && firm(utf8(s)) && utf8(s).len() <= n
}

/// The text that is read from the bytes of a text.
pub open spec fn same(s: Seq<char>) -> Seq<char> {
    lossy_text(utf8(s))
}

pub proof fn lemma_kept(s: Seq<char>, n: int)
    requires
        fits(s, n),
    ensures
        kept(s, n) == same(s),
{
    let b = utf8(s);
    lemma_trimmed(0, b, n - b.len());
    assert(filled(b, n) =~= repeated(0x20, 0) + b + repeated(0x20, n - b.len()));
}

proof fn lemma_blanks_off(s: Seq<u8>, n: int)
    requires
        n >= 0,
        s.len() > 0 ==> s.last() != 0x20,
    ensures
        without_blanks(s + repeated(0x20, n)) == s,
    decreases n,
{
    let all = s + repeated(0x20, n);
    if n == 0 {
        assert(all =~= s);
    } else {
        assert(all.drop_last() =~= s + repeated(0x20, n - 1));
        assert(all.last() == 0x20);
        lemma_blanks_off(s, n - 1);
    }
}

/// Whether a comment fits its line whole: it has no blank at its end, and no more
/// than sixty characters.
pub open spec fn comment_fits(c: Seq<char>) -> bool {
    plain_text(c) && utf8(c).len() <= 60 && (utf8(c).len() > 0 ==> utf8(c).last() != 0x20)
}

pub proof fn lemma_comment_kept(c: Seq<char>)
    requires
        comment_fits(c),
    ensures
        comment_kept(c) == same(c),
{
    lemma_blanks_off(utf8(c), 60 - utf8(c).len());
}

/// Whether a version is a word that fits its columns.
pub open spec fn version_fits(version: Seq<char>) -> bool {
    0 < utf8(version).len() <= 9 && solid(utf8(version))
}

pub proof fn lemma_version_kept(version: Seq<char>)
    requires
        version_fits(version),
    ensures
        version_kept(version) == same(version),
{
    let v = utf8(version);
    lemma_solid_plain(v);
    lemma_plain_chars(v, 9);
    lemma_plain_count(v);
    lemma_fields_cell(9 - v.len(), v, repeated(0x20, 11));
    lemma_fields_blank(11);
    assert(fields(version_text(v) + repeated(0x20, 11))[0] == v);
}

/// Whether a date is one of the years 0 to 9999, on a whole second.
pub open spec fn date_fits(d: Option<Instant>) -> bool {
    d matches Some(x) ==> x.nanos == 0 && -62_167_219_200 <= x.secs < 253_402_300_800
}

proof fn lemma_civil_of(d: Instant)
    requires
        date_fits(Some(d)),
    ensures
        civil_of(d).on_clock(),
        civil_of(d).unix() == d.secs,
        civil_of(d).nanos == 0,
        0 <= civil_of(d).year <= 9999,
{
    let days = d.secs as int / 86400;
    let sod = d.secs as int % 86400;
    let (y, m, k) = lemma_date_of(days);
    lemma_civil_days(y, m, k);
    reveal_with_fuel(crate::calendar::days_before_month, 2);
    if y < 0 {
        crate::calendar::lemma_epoch_days_ordered(y, m, k, 0, 1, 1);
    }
    if y > 9999 {
        crate::calendar::lemma_epoch_days_ordered(10000, 1, 1, y, m, k);
    }
    let c = Civil {
        year: y as i64,
        month: m as u32,
        day: k as u32,
        hour: (sod / 3600) as u32,
        minute: ((sod % 3600) / 60) as u32,
        second: (sod % 60) as u32,
        nanos: 0,
    };
    assert(c.days() == days);
    assert(c.unix() == d.secs);
    assert(c.on_clock());
    crate::rinex_write::lemma_instant_civil(c, civil_of(d));
}

proof fn lemma_date_row(day: Seq<u8>, time: Seq<u8>)
    requires
        day.len() == 8 && solid(day),
        time.len() == 6 && solid(time),
    ensures
        ({
            let text = day + seq![0x20u8] + time + utf8(" UTC"@);
            let f = fields(filled(text, 20));
            f.len() == 3 && f[0] == day && f[1] == time
        }),
{
    let utc = seq![0x55u8, 0x54u8, 0x43u8];
    let text = day + seq![0x20u8] + time + utf8(" UTC"@);
    reveal_strlit(" UTC");
    lemma_plain_text(" UTC"@);
    let u = utf8(" UTC"@);
    assert(u[0] == 0x20 && u[1] == 0x55 && u[2] == 0x54 && u[3] == 0x43);
    assert(u =~= repeated(0x20, 1) + utc);
    assert forall|i: int| 0 <= i < utc.len() implies is_solid(#[trigger] utc[i]) by {
        assert(i == 0 || i == 1 || i == 2);
    }
    let a = seq![(0int, day)];
    let b = seq![(1int, time)];
    let c = seq![(1int, utc)];
    lemma_row_one(0, day);
    lemma_row_one(1, time);
    lemma_row_one(1, utc);
    lemma_row_join(a, b);
    lemma_row_join(a + b, c);
    let all = a + b + c;
    assert(all =~= seq![(0int, day), (1int, time), (1int, utc)]);
    assert(apart(all));
    assert(row(all) =~= text);
    lemma_row_fields(all, 1);
    assert(filled(text, 20) =~= row(all) + repeated(0x20, 1));
    assert(texts(all) =~= seq![day, time, utc]);
}

pub proof fn lemma_date_kept(d: Option<Instant>)
    requires
        date_fits(d),
    ensures
        date_kept(d) == d,
{
    match d {
        None => {
            lemma_fields_blank(20);
            assert(filled(Seq::<u8>::empty(), 20) =~= repeated(0x20, 20));
        },
        Some(x) => {
            let c = civil_of(x);
            lemma_civil_of(x);
            lemma_civil_days(c.year as int, c.month as int, c.day as int);
            lemma_dec_len(c.year as nat);
            lemma_dec_len(c.month as nat);
            lemma_dec_len(c.day as nat);
            lemma_dec_len(c.hour as nat);
            lemma_dec_len(c.minute as nat);
            lemma_dec_len(c.second as nat);
            lemma_padded_number(c.year as nat, 4);
            lemma_padded_number(c.month as nat, 2);
            lemma_padded_number(c.day as nat, 2);
            lemma_padded_number(c.hour as nat, 2);
            lemma_padded_number(c.minute as nat, 2);
            lemma_padded_number(c.second as nat, 2);
            lemma_date_parts(
                zero_padded(c.year as nat, 4),
                zero_padded(c.month as nat, 2),
                zero_padded(c.day as nat, 2),
                zero_padded(c.hour as nat, 2),
                zero_padded(c.minute as nat, 2),
                zero_padded(c.second as nat, 2),
            );
        },
    }
}

proof fn lemma_date_parts(
    y: Seq<u8>,
    mo: Seq<u8>,
    d: Seq<u8>,
    h: Seq<u8>,
    mi: Seq<u8>,
    s: Seq<u8>,
)
    requires
        y.len() == 4 && solid(y),
        mo.len() == 2 && solid(mo),
        d.len() == 2 && solid(d),
        h.len() == 2 && solid(h),
        mi.len() == 2 && solid(mi),
        s.len() == 2 && solid(s),
    ensures
        ({
            let text = y + mo + d + seq![0x20u8] + h + mi + s + utf8(" UTC"@);
            let f = fields(filled(text, 20));
            &&& f.len() == 3 && f[0].len() == 8 && f[1].len() == 6
            &&& f[0].subrange(0, 4) == y
            &&& f[0].subrange(4, 6) == mo
            &&& f[0].subrange(6, 8) == d
            &&& f[1].subrange(0, 2) == h
            &&& f[1].subrange(2, 4) == mi
            &&& f[1].subrange(4, 6) == s
        }),
{
    let day = y + mo + d;
    let time = h + mi + s;
    assert forall|i: int| 0 <= i < day.len() implies is_solid(#[trigger] day[i]) by {
        if i < 4 {
            assert(day[i] == y[i]);
        } else if i < 6 {
            assert(day[i] == mo[i - 4]);
        } else {
            assert(day[i] == d[i - 6]);
        }
    }
    assert forall|i: int| 0 <= i < time.len() implies is_solid(#[trigger] time[i]) by {
        if i < 2 {
            assert(time[i] == h[i]);
        } else if i < 4 {
            assert(time[i] == mi[i - 2]);
        } else {
            assert(time[i] == s[i - 4]);
        }
    }
    lemma_date_row(day, time);
    assert(y + mo + d + seq![0x20u8] + h + mi + s + utf8(" UTC"@) =~= day + seq![0x20u8] + time
        + utf8(" UTC"@));
    assert(day.subrange(0, 4) =~= y);
    assert(day.subrange(4, 6) =~= mo);
    assert(day.subrange(6, 8) =~= d);
    assert(time.subrange(0, 2) =~= h);
    assert(time.subrange(2, 4) =~= mi);
    assert(time.subrange(4, 6) =~= s);
}

/// Whether the facts of a header fit their columns whole.
pub open spec fn facts_fit(m: MetadataView<&[u8]>) -> bool {
    &&& version_fits(m.version)
    &&& fits(m.run.program, 20)
    &&& fits(m.run.by, 20)
    &&& date_fits(m.run.date)
    &&& forall|i: int| 0 <= i < m.comment.len() ==> comment_fits(#[trigger] m.comment[i])
    &&& fits(m.marker.name, 60)
    &&& fits(m.marker.number, 60)
    &&& fits(m.marker.type_, 60)
    &&& fits(m.observer, 20)
    &&& fits(m.agency, 40)
    &&& fits(m.receiver.number, 20)
    &&& fits(m.receiver.type_, 20)
    &&& fits(m.receiver.version, 20)
    &&& fits(m.antenna.number, 20)
    &&& fits(m.antenna.type_, 20)
}

/// The facts of a header that fit their columns are read as they were written.
pub proof fn lemma_facts_round_trip(
    d: Seq<u8>,
    g: MetadataView<Reading>,
    m: MetadataView<&[u8]>,
)
    requires
        facts_read(d, g, m),
        facts_fit(m),
    ensures
        g.version == same(m.version),
        g.run.program == same(m.run.program),
        g.run.by == same(m.run.by),
        g.run.date == m.run.date,
        g.comment.len() == m.comment.len(),
        forall|i: int| 0 <= i < m.comment.len() ==> #[trigger] g.comment[i] == same(m.comment[i]),
        g.marker.name == same(m.marker.name),
        g.marker.number == same(m.marker.number),
        g.marker.type_ == same(m.marker.type_),
        g.observer == same(m.observer),
        g.agency == same(m.agency),
        g.receiver.number == same(m.receiver.number),
        g.receiver.type_ == same(m.receiver.type_),
        g.receiver.version == same(m.receiver.version),
        g.antenna.number == same(m.antenna.number),
        g.antenna.type_ == same(m.antenna.type_),
{
    lemma_version_kept(m.version);
    lemma_kept(m.run.program, 20);
    lemma_kept(m.run.by, 20);
    lemma_date_kept(m.run.date);
    assert forall|i: int| 0 <= i < m.comment.len() implies #[trigger] g.comment[i] == same(
        m.comment[i],
    ) by {
        assert(comment_fits(m.comment[i]));
        lemma_comment_kept(m.comment[i]);
    }
    lemma_kept(m.marker.name, 60);
    lemma_kept(m.marker.number, 60);
    lemma_kept(m.marker.type_, 60);
    lemma_kept(m.observer, 20);
    lemma_kept(m.agency, 40);
    lemma_kept(m.receiver.number, 20);
    lemma_kept(m.receiver.type_, 20);
    lemma_kept(m.receiver.version, 20);
    lemma_kept(m.antenna.number, 20);
    lemma_kept(m.antenna.type_, 20);
}

} // verus!
