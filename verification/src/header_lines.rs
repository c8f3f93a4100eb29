//! The lines of a RINEX header: what stands in their columns is found there again.

use crate::cells::{lemma_line_found, lemma_plain_join, lemma_trimmed, plain};
use crate::columns::{after_line, cols, line_at};
use crate::labels::is_label;
use crate::reread::lemma_split_at;
use crate::rinex_read::{header_from, header_step, label_of, HeaderStep, ObsHeaderView};
use crate::rinex_write::{char_count, chars_len, column, cut, header_text, take_chars};
use crate::text::repeated;
use vstd::prelude::*;

verus! {

// ---- one line ----

/// The first `n` bytes of a text, as far as it goes.
pub open spec fn first(s: Seq<u8>, n: int) -> Seq<u8> {
    if s.len() > n {
        s.take(n)
    } else {
        s
    }
}

/// The first `n` bytes of a text with blanks behind them, up to `n`.
pub open spec fn filled(s: Seq<u8>, n: int) -> Seq<u8> {
    first(s, n) + repeated(0x20, n - first(s, n).len())
}

/// Every printing ASCII character is one byte.
pub proof fn lemma_plain_count(s: Seq<u8>)
    requires
        plain(s),
    ensures
        char_count(s) == s.len(),
    decreases s.len(),
{
    if s.len() > 0 {
        let t = s.drop_last();
        assert forall|i: int| 0 <= i < t.len() implies 0x20 <= #[trigger] t[i] <= 0x7e by {
            assert(t[i] == s[i]);
        }
        lemma_plain_count(t);
        assert(s.last() == s[s.len() - 1]);
    }
}

pub proof fn lemma_plain_first(s: Seq<u8>, n: int)
    requires
        plain(s),
        n >= 0,
    ensures
        plain(first(s, n)),
        first(s, n).len() <= n,
{
    let t = first(s, n);
    assert forall|i: int| 0 <= i < t.len() implies 0x20 <= #[trigger] t[i] <= 0x7e by {
        assert(t[i] == s[i]);
    }
}

pub proof fn lemma_plain_chars(s: Seq<u8>, n: int)
    requires
        plain(s),
        n >= 0,
    ensures
        take_chars(s, n) == first(s, n),
    decreases s.len(),
{
    lemma_plain_count(s);
    if s.len() > n {
        let t = s.drop_last();
        assert forall|i: int| 0 <= i < t.len() implies 0x20 <= #[trigger] t[i] <= 0x7e by {
            assert(t[i] == s[i]);
        }
        lemma_plain_chars(t, n);
        lemma_plain_count(t);
        assert(chars_len(s, n) == chars_len(t, n));
        if t.len() > n {
            assert(t.take(chars_len(t, n)).len() == n) by {
                lemma_plain_first(t, n);
            }
            crate::rinex_write::lemma_take_count(t, n);
            assert(chars_len(t, n) == n);
        } else {
            assert(chars_len(t, n) == t.len() as int);
        }
        assert(s.take(chars_len(s, n)) =~= s.take(n));
    } else {
        assert(s.take(s.len() as int) =~= s);
    }
}

/// A column holds the first bytes of a text, and blanks behind them.
pub proof fn lemma_column(s: Seq<u8>, n: int)
    requires
        plain(s),
        n >= 0,
    ensures
        column(s, n) == filled(s, n),
        column(s, n).len() == n,
        plain(column(s, n)),
{
    lemma_plain_chars(s, n);
    lemma_plain_first(s, n);
    lemma_plain_count(first(s, n));
    lemma_plain_join(first(s, n), repeated(0x20, n - first(s, n).len()));
}

/// The bytes of a header line.
pub proof fn lemma_header_bytes(content: Seq<u8>, label: Seq<u8>)
    requires
        plain(content),
        is_label(label),
    ensures
        header_text(content, label) == filled(content, 60) + filled(label, 20) + seq![0x0au8],
        header_text(content, label).len() == 81,
        filled(content, 60).len() == 60,
        filled(label, 20).len() == 20,
        plain(filled(content, 60) + filled(label, 20)),
{
    reveal(is_label);
    assert(cut(content, 60) == first(content, 60));
    lemma_plain_first(content, 60);
    lemma_plain_count(first(content, 60));
    lemma_plain_count(label);
    assert(first(label, 20) == label);
    lemma_plain_join(first(content, 60), repeated(0x20, 60 - first(content, 60).len()));
    lemma_plain_join(label, repeated(0x20, 20 - label.len()));
    lemma_plain_join(filled(content, 60), filled(label, 20));
}

/// A header line without its end.
pub open spec fn line_of(content: Seq<u8>, label: Seq<u8>) -> Seq<u8> {
    filled(content, 60) + filled(label, 20)
}

/// The columns of a header line.
pub proof fn lemma_line_columns(content: Seq<u8>, label: Seq<u8>)
    requires
        plain(content),
        is_label(label),
    ensures
        line_of(content, label).len() == 80,
        plain(line_of(content, label)),
        label_of(line_of(content, label)) == label,
        filled(content, 60).len() == 60,
        cols(line_of(content, label), 0, 60) == filled(content, 60),
        forall|a: int, b: int|
            0 <= a <= b <= 60 ==> #[trigger] cols(line_of(content, label), a, b) == filled(
                content,
                60,
            ).subrange(a, b),
{
    reveal(is_label);
    let line = line_of(content, label);
    lemma_header_bytes(content, label);
    assert(cols(line, 0, 60) =~= filled(content, 60));
    assert forall|a: int, b: int| 0 <= a <= b <= 60 implies #[trigger] cols(line, a, b) == filled(
        content,
        60,
    ).subrange(a, b) by {
        assert(cols(line, a, b) =~= filled(content, 60).subrange(a, b));
    }
    assert(cols(line, 60, 80) =~= filled(label, 20));
    lemma_trimmed(0, label, 20 - label.len());
    assert(filled(label, 20) =~= repeated(0x20, 0) + label + repeated(0x20, 20 - label.len()));
}

/// A header line is found with its content and its label.
pub proof fn lemma_header_line(d: Seq<u8>, pos: int, content: Seq<u8>, label: Seq<u8>)
    requires
        plain(content),
        is_label(label),
        0 <= pos,
        pos + 81 <= d.len(),
        d.subrange(pos, pos + 81) == header_text(content, label),
    ensures
        ({
            let line = line_at(d, pos);
            &&& line == line_of(content, label)
            &&& d.subrange(pos, pos + 80) == line
        }),
        after_line(d, pos) == pos + 81,
{
    let text = header_text(content, label);
    lemma_header_bytes(content, label);
    let line = line_of(content, label);
    let here = d.subrange(pos, pos + 81);
    assert(d.subrange(pos, pos + line.len()) =~= line) by {
        assert forall|i: int| 0 <= i < line.len() implies d[pos + i] == line[i] by {
            assert(here[i] == text[i]);
        }
    }
    assert(d[pos + 80] == 0x0a) by {
        assert(here[80] == text[80]);
    }
    assert forall|i: int| 0 <= i < line.len() implies #[trigger] line[i] != 0x0a by {
        assert(0x20 <= line[i]);
    }
    assert(line.last() == line[79]);
    lemma_line_found(d, pos, line);
}

/// Reading goes on behind a header line that is not the last.
pub proof fn lemma_header_on(
    d: Seq<u8>,
    pos: int,
    content: Seq<u8>,
    label: Seq<u8>,
    rest: Seq<u8>,
    h: ObsHeaderView,
    after: ObsHeaderView,
)
    requires
        plain(content),
        is_label(label),
        0 <= pos <= d.len(),
        d.skip(pos) == header_text(content, label) + rest,
        header_step(h, line_of(content, label), pos) == HeaderStep::More(after),
    ensures
        header_from(d, pos, h) == header_from(d, pos + 81, after),
        d.skip(pos + 81) == rest,
{
    lemma_header_bytes(content, label);
    lemma_split_at(d, pos, header_text(content, label), rest);
    lemma_header_line(d, pos, content, label);
}

} // verus!
