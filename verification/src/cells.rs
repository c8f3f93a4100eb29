//! Facts about texts in cells: what is set in columns with blanks around it, or
//! on a line of its own, is found there again.

use crate::columns::{after_line, line_at, line_end, trim_range, without_returns};
use crate::text::{
    fields, lemma_first_index_is, repeated, token_len, trim_end, trim_start, trimmed, ws_end_len,
    ws_len,
};
use vstd::prelude::*;

verus! {

/// Whether a byte is a printing ASCII character and no blank.
pub open spec fn is_solid(b: u8) -> bool {
    0x21 <= b <= 0x7e
}

/// Whether all bytes are printing ASCII characters and none is a blank.
pub open spec fn solid(s: Seq<u8>) -> bool {
    forall|i: int| 0 <= i < s.len() ==> is_solid(#[trigger] s[i])
}

/// Whether a text is empty, or begins and ends with a printing character.
pub open spec fn firm(s: Seq<u8>) -> bool {
    s.len() > 0 ==> is_solid(s[0]) && is_solid(s.last())
}

/// Whether all bytes are blanks or printing ASCII characters.
pub open spec fn plain(s: Seq<u8>) -> bool {
    forall|i: int| 0 <= i < s.len() ==> 0x20 <= #[trigger] s[i] <= 0x7e
}

/// Texts of printing characters stay so behind each other.
pub proof fn lemma_plain_join(a: Seq<u8>, b: Seq<u8>)
    requires
        plain(a),
        plain(b),
    ensures
        plain(a + b),
{
    assert forall|i: int| 0 <= i < (a + b).len() implies 0x20 <= #[trigger] (a + b)[i] <= 0x7e by {
        if i < a.len() {
            assert((a + b)[i] == a[i]);
        } else {
            assert((a + b)[i] == b[i - a.len()]);
        }
    }
}

/// Blanks in front do not count.
pub proof fn lemma_trim_front(n: int, s: Seq<u8>)
    requires
        n >= 0,
    ensures
        trim_start(repeated(0x20, n) + s) == trim_start(s),
    decreases n,
{
    let all = repeated(0x20, n) + s;
    if n == 0 {
        assert(all =~= s);
    } else {
        assert(ws_len(all) == 1);
        assert(all.skip(1) =~= repeated(0x20, n - 1) + s);
        lemma_trim_front(n - 1, s);
    }
}

proof fn lemma_trim_back(n: int, s: Seq<u8>)
    requires
        n >= 0,
    ensures
        trim_end(s + repeated(0x20, n)) == trim_end(s),
    decreases n,
{
    let all = s + repeated(0x20, n);
    if n == 0 {
        assert(all =~= s);
    } else {
        assert(ws_end_len(all) == 1);
        assert(all.take(all.len() - 1) =~= s + repeated(0x20, n - 1));
        lemma_trim_back(n - 1, s);
    }
}

/// A text with blanks around it, trimmed, is the text.
pub proof fn lemma_trimmed(a: int, s: Seq<u8>, b: int)
    requires
        a >= 0,
        b >= 0,
        firm(s),
    ensures
        trimmed(repeated(0x20, a) + s + repeated(0x20, b)) == s,
        s.len() > 0 ==> trim_range(repeated(0x20, a) + s + repeated(0x20, b)) == (
            a,
            a + s.len(),
        ),
{
    let all = repeated(0x20, a) + s + repeated(0x20, b);
    assert(all =~= repeated(0x20, a) + (s + repeated(0x20, b)));
    lemma_trim_front(a, s + repeated(0x20, b));
    if s.len() == 0 {
        assert(s + repeated(0x20, b) =~= repeated(0x20, b) + Seq::<u8>::empty());
        lemma_trim_front(b, Seq::empty());
        assert(trim_start(Seq::<u8>::empty()) =~= Seq::<u8>::empty());
        assert(trim_end(Seq::<u8>::empty()) =~= Seq::<u8>::empty());
        assert(s =~= Seq::<u8>::empty());
    } else {
        let t = s + repeated(0x20, b);
        assert(t[0] == s[0]);
        assert(ws_len(t) == 0);
        assert(trim_start(t) == t);
        lemma_trim_back(b, s);
        assert(s[s.len() - 1] == s.last());
        assert(ws_end_len(s) == 0);
        assert(trim_end(s) == s);
    }
}

/// Blanks in front add no field.
pub proof fn lemma_fields_front(n: int, s: Seq<u8>)
    requires
        n >= 0,
    ensures
        fields(repeated(0x20, n) + s) == fields(s),
{
    lemma_trim_front(n, s);
}

/// Blanks alone are no field.
pub proof fn lemma_fields_blank(n: int)
    requires
        n >= 0,
    ensures
        fields(repeated(0x20, n)) == Seq::<Seq<u8>>::empty(),
{
    lemma_fields_front(n, Seq::empty());
    assert(repeated(0x20, n) + Seq::<u8>::empty() =~= repeated(0x20, n));
    assert(trim_start(Seq::<u8>::empty()) =~= Seq::<u8>::empty());
}

proof fn lemma_token(tok: Seq<u8>, rest: Seq<u8>)
    requires
        solid(tok),
        rest.len() > 0 ==> rest[0] == 0x20,
    ensures
        token_len(tok + rest) == tok.len(),
    decreases tok.len(),
{
    let all = tok + rest;
    if tok.len() == 0 {
        assert(all =~= rest);
        if rest.len() > 0 {
            assert(ws_len(rest) == 1);
        }
    } else {
        assert(is_solid(tok[0]));
        assert(all[0] == tok[0]);
        assert(ws_len(all) == 0);
        assert(all.skip(1) =~= tok.skip(1) + rest);
        assert forall|i: int| 0 <= i < tok.skip(1).len() implies is_solid(#[trigger] tok.skip(1)[i]) by {
            assert(is_solid(tok[i + 1]));
        }
        lemma_token(tok.skip(1), rest);
    }
}

/// A run without blanks, with nothing or a blank behind it, is the first field.
pub proof fn lemma_fields_token(tok: Seq<u8>, rest: Seq<u8>)
    requires
        tok.len() > 0,
        solid(tok),
        rest.len() > 0 ==> rest[0] == 0x20,
    ensures
        fields(tok + rest) == seq![tok] + fields(rest),
{
    let all = tok + rest;
    assert(is_solid(tok[0]));
    assert(all[0] == tok[0]);
    assert(ws_len(all) == 0);
    assert(trim_start(all) == all);
    lemma_token(tok, rest);
    assert(all.take(tok.len() as int) =~= tok);
    assert(all.skip(tok.len() as int) =~= rest);
}

/// A field behind blanks.
pub proof fn lemma_fields_cell(n: int, tok: Seq<u8>, rest: Seq<u8>)
    requires
        n >= 0,
        tok.len() > 0,
        solid(tok),
        rest.len() > 0 ==> rest[0] == 0x20,
    ensures
        fields(repeated(0x20, n) + tok + rest) == seq![tok] + fields(rest),
{
    assert(repeated(0x20, n) + tok + rest =~= repeated(0x20, n) + (tok + rest));
    lemma_fields_front(n, tok + rest);
    lemma_fields_token(tok, rest);
}

/// Texts one after another, each behind a number of blanks.
pub open spec fn row(items: Seq<(int, Seq<u8>)>) -> Seq<u8>
    decreases items.len(),
{
    if items.len() == 0 {
        Seq::empty()
    } else {
        row(items.drop_last()) + repeated(0x20, items.last().0) + items.last().1
    }
}

/// The texts of a row.
pub open spec fn texts(items: Seq<(int, Seq<u8>)>) -> Seq<Seq<u8>> {
    Seq::new(items.len(), |i: int| items[i].1)
}

/// Whether the texts of a row stand apart.
pub open spec fn apart(items: Seq<(int, Seq<u8>)>) -> bool {
    forall|i: int|
        0 <= i < items.len() ==> {
            &&& (#[trigger] items[i]).1.len() > 0
            &&& solid(items[i].1)
            &&& items[i].0 >= 0
            &&& i > 0 ==> items[i].0 >= 1
        }
}

proof fn lemma_row_front(items: Seq<(int, Seq<u8>)>)
    requires
        items.len() > 0,
    ensures
        row(items) == repeated(0x20, items[0].0) + items[0].1 + row(items.skip(1)),
    decreases items.len(),
{
    let t = items.skip(1);
    if t.len() == 0 {
        assert(row(items.drop_last()) =~= Seq::<u8>::empty());
        assert(row(t) =~= Seq::<u8>::empty());
        assert(row(items) =~= repeated(0x20, items[0].0) + items[0].1 + row(t));
    } else {
        lemma_row_front(items.drop_last());
        assert(items.drop_last().skip(1) =~= t.drop_last());
        assert(items.drop_last()[0] == items[0]);
        assert(items.last() == t.last());
        assert(row(items) =~= repeated(0x20, items[0].0) + items[0].1 + row(t));
    }
}

/// Rows behind each other are one row.
pub proof fn lemma_row_join(a: Seq<(int, Seq<u8>)>, b: Seq<(int, Seq<u8>)>)
    ensures
        row(a + b) == row(a) + row(b),
    decreases b.len(),
{
    if b.len() == 0 {
        assert(a + b =~= a);
        assert(row(a) + row(b) =~= row(a));
    } else {
        lemma_row_join(a, b.drop_last());
        assert((a + b).drop_last() =~= a + b.drop_last());
        assert(row(a + b) =~= row(a) + row(b));
    }
}

/// A row of one text.
pub proof fn lemma_row_one(n: int, s: Seq<u8>)
    ensures
        row(seq![(n, s)]) == repeated(0x20, n) + s,
{
    let items = seq![(n, s)];
    assert(row(items.drop_last()) =~= Seq::<u8>::empty());
    assert(row(items) =~= repeated(0x20, n) + s);
}

/// The fields of a row are its texts.
pub proof fn lemma_row_fields(items: Seq<(int, Seq<u8>)>, n: int)
    requires
        apart(items),
        n >= 0,
    ensures
        fields(row(items) + repeated(0x20, n)) == texts(items),
    decreases items.len(),
{
    let all = row(items) + repeated(0x20, n);
    if items.len() == 0 {
        lemma_fields_blank(n);
        assert(all =~= repeated(0x20, n));
        assert(texts(items) =~= Seq::<Seq<u8>>::empty());
    } else {
        let t = items.skip(1);
        let rest = row(t) + repeated(0x20, n);
        lemma_row_front(items);
        assert(all =~= repeated(0x20, items[0].0) + items[0].1 + rest);
        assert(items[0].1.len() > 0);
        if rest.len() > 0 {
            if t.len() > 0 {
                lemma_row_front(t);
                assert(t[0] == items[1]);
                assert(items[1].0 >= 1);
                assert(rest[0] == 0x20);
            } else {
                assert(row(t) =~= Seq::<u8>::empty());
                assert(rest[0] == 0x20);
            }
        }
        lemma_fields_cell(items[0].0, items[0].1, rest);
        assert(apart(t)) by {
            assert forall|i: int| 0 <= i < t.len() implies ({
                &&& (#[trigger] t[i]).1.len() > 0
                &&& solid(t[i].1)
                &&& t[i].0 >= 0
                &&& i > 0 ==> t[i].0 >= 1
            }) by {
                assert(t[i] == items[i + 1]);
            }
        }
        lemma_row_fields(t, n);
        assert(texts(items) =~= seq![items[0].1] + texts(t));
    }
}

/// Whether a text can stand on a line: it holds no line end, and no carriage
/// return at its end.
pub open spec fn on_one_line(s: Seq<u8>) -> bool {
    &&& forall|i: int| 0 <= i < s.len() ==> #[trigger] s[i] != 0x0a
    &&& s.len() > 0 ==> s.last() != 0x0d
}

/// A line is found where it stands, and the next begins behind it.
pub proof fn lemma_line_found(d: Seq<u8>, pos: int, line: Seq<u8>)
    requires
        on_one_line(line),
        0 <= pos,
        pos + line.len() < d.len(),
        d.subrange(pos, pos + line.len()) == line,
        d[pos + line.len()] == 0x0a,
    ensures
        line_at(d, pos) == line,
        after_line(d, pos) == pos + line.len() + 1,
{
    let rest = d.skip(pos);
    assert forall|j: int| 0 <= j < line.len() implies rest[j] != 0x0a by {
        assert(line[j] == d[pos + j]);
    }
    lemma_first_index_is(rest, 0x0a, line.len() as int);
    assert(line_end(d, pos) == pos + line.len());
    assert(without_returns(line) == line);
}

} // verus!
