//! What is written into a RINEX file is read from it again: the fields of a
//! satellite, the satellites of an epoch, and the epochs of a file.

use crate::cells::{
    is_solid, lemma_line_found, lemma_plain_join, lemma_trimmed, on_one_line, plain, solid,
};
use crate::columns::{after_line, cols, is_float_text, line_at, trim_range};
use crate::metadata::value_or;
use crate::obs::{
    code_signal, no_values, sat_number, sat_valid, with_lli, Civil, GpsTime, ObsCode, SatId, SigId,
    SignalValues, TYPE_CODE, TYPE_DOPPLER, TYPE_PHASE, TYPE_SIGNAL_STRENGTH,
};
use crate::keymap::fx_value;
use crate::labels::lemma_time_systems;
use crate::rinex_read::{
    digit_at, epoch_line_fields, epochs_from, first_three, line_observations, new_observation,
    number_at, one_epoch, reading, rinex_time, sat_line, sat_lines, seven_places, signal_index, split_point, with_field,
    ObsHeaderView, ReadObservation, Reading,
};
use crate::rinex_write::{
    civil_at, codes_for, epoch_first_line, epoch_head, epoch_text, epochs_text, field_text, fields_text, indicator,
    lemma_civil_at, sat_text, sats_text, second_text, stamp_text,
};
use crate::rinexobs::{field_of, EpochView, ObsField, SatRecordView};
use crate::text::{
    all_digits, dec, int_text, is_digit, lemma_ascii_valid, lemma_dec_len, lemma_dec_value,
    lemma_first_index_is, lemma_zero_padded, pad_left, repeated, trim_end, trim_start, trimmed,
    uint_text, utf8, ws_end_len, ws_len, zero_padded,
};
use vstd::prelude::*;

verus! {

// ---- texts ----

/// The text in a file that a reading stands for.
pub open spec fn reading_text(d: Seq<u8>, r: Reading) -> Seq<u8> {
    match r {
        Reading::Text(a, b) => d.subrange(a as int, b as int),
        Reading::Whole(n) => dec(n as nat),
    }
}

/// The text of a reading, where there is one.
pub open spec fn option_text(d: Seq<u8>, r: Option<Reading>) -> Option<Seq<u8>> {
    match r {
        Some(x) => Some(reading_text(d, x)),
        None => None,
    }
}

/// The values of an observation by their texts.
pub open spec fn values_text(d: Seq<u8>, v: SignalValues<Reading, Reading>) -> SignalValues<
    Seq<u8>,
    Seq<u8>,
> {
    SignalValues {
        frq: v.frq,
        pr: option_text(d, v.pr),
        cp: option_text(d, v.cp),
        dop: option_text(d, v.dop),
        cn0: option_text(d, v.cn0),
        arc: v.arc,
        hc: v.hc,
        bt: v.bt,
        ll: v.ll,
    }
}

/// Whether a text is a number that fits a field: at most fourteen characters, and
/// no blank among them.
pub open spec fn is_number(s: Seq<u8>) -> bool {
    0 < s.len() <= 14 && solid(s) && is_float_text(s)
}

/// Whether a field can be read again: it has a number, or an indicator alone, and
/// the indicator is a digit.
pub open spec fn field_ok(f: ObsField<&[u8]>) -> bool {
    &&& f.lli <= 9
    &&& match f.val {
        Some(v) => is_number(v@),
        None => f.lli != 0,
    }
}

/// Whether all fields can be read again.
pub open spec fn fields_ok(fields: Seq<(ObsCode, ObsField<&[u8]>)>) -> bool {
    forall|i: int| 0 <= i < fields.len() ==> field_ok((#[trigger] fields[i]).1)
}

/// The text of the number in a field.
pub open spec fn val_text(f: ObsField<&[u8]>) -> Option<Seq<u8>> {
    match f.val {
        Some(v) => Some(v@),
        None => None,
    }
}

// ---- one field ----

proof fn lemma_some_front(s: Seq<u8>, i: int)
    requires
        0 <= i < s.len(),
        is_solid(s[i]),
        forall|k: int| 0 <= k < s.len() ==> #[trigger] s[k] < 0x80,
    ensures
        exists|j: int| 0 <= j < trim_start(s).len() && is_solid(#[trigger] trim_start(s)[j]),
        forall|k: int| 0 <= k < trim_start(s).len() ==> #[trigger] trim_start(s)[k] < 0x80,
    decreases s.len(),
{
    if ws_len(s) > 0 {
        assert(s[0] < 0x80);
        assert(i != 0);
        let t = s.skip(1);
        assert(t[i - 1] == s[i]);
        assert forall|k: int| 0 <= k < t.len() implies #[trigger] t[k] < 0x80 by {
            assert(s[k + 1] < 0x80);
        }
        lemma_some_front(t, i - 1);
        assert(ws_len(s) == 1);
        assert(trim_start(s) == trim_start(t));
        let j = choose|j: int| 0 <= j < trim_start(t).len() && is_solid(#[trigger] trim_start(t)[j]);
        assert(is_solid(trim_start(s)[j]));
    } else {
        assert(is_solid(trim_start(s)[i]));
    }
}

proof fn lemma_some_back(s: Seq<u8>, i: int)
    requires
        0 <= i < s.len(),
        is_solid(s[i]),
        forall|k: int| 0 <= k < s.len() ==> #[trigger] s[k] < 0x80,
    ensures
        trim_end(s).len() > 0,
    decreases s.len(),
{
    let n = s.len() as int;
    if ws_end_len(s) > 0 {
        assert(s[n - 1] < 0x80);
        assert(i != n - 1);
        let t = s.take(n - 1);
        assert(t[i] == s[i]);
        assert forall|k: int| 0 <= k < t.len() implies #[trigger] t[k] < 0x80 by {
            assert(s[k] < 0x80);
        }
        lemma_some_back(t, i);
    }
}

/// A text with a printing character is not blank.
pub proof fn lemma_not_blank(s: Seq<u8>, i: int)
    requires
        0 <= i < s.len(),
        is_solid(s[i]),
        forall|k: int| 0 <= k < s.len() ==> #[trigger] s[k] < 0x80,
    ensures
        trimmed(s).len() > 0,
{
    lemma_some_front(s, i);
    let t = trim_start(s);
    let j = choose|j: int| 0 <= j < t.len() && is_solid(#[trigger] t[j]);
    lemma_some_back(t, j);
}

proof fn lemma_no_number()
    ensures
        !is_float_text(Seq::<u8>::empty()),
{
    reveal(is_float_text);
    let e = Seq::<u8>::empty();
    reveal_strlit("inf");
    reveal_strlit("infinity");
    reveal_strlit("nan");
    crate::labels::lemma_ascii_text("inf"@);
    crate::labels::lemma_ascii_text("infinity"@);
    crate::labels::lemma_ascii_text("nan"@);
    assert(crate::columns::unsigned(e) == e);
    assert(crate::columns::digit_run(e) == 0);
    assert(crate::columns::lowered(e).len() == 0);
    assert(crate::columns::lowered(utf8("inf"@)).len() == 3);
    assert(crate::columns::lowered(utf8("infinity"@)).len() == 8);
    assert(crate::columns::lowered(utf8("nan"@)).len() == 3);
}

/// The sixteen columns of a field: they are blank where there is no field; else
/// the number, the indicator and a blank stand in them.
pub proof fn lemma_field_text(f: Option<ObsField<&[u8]>>)
    requires
        f matches Some(x) ==> field_ok(x),
    ensures
        field_text(f).len() == 16,
        forall|i: int| 0 <= i < 16 ==> 0x20 <= #[trigger] field_text(f)[i] <= 0x7e,
        trimmed(field_text(f)).len() == 0 <==> f is None,
        field_text(f)[15] == 0x20,
        f matches Some(x) ==> {
            let number = field_text(f).take(14);
            &&& field_text(f)[14] == indicator(x.lli)
            &&& is_float_text(trimmed(number)) <==> x.val is Some
            &&& x.val matches Some(v) ==> trimmed(number) == v@
        },
{
    let all = field_text(f);
    match f {
        None => {
            lemma_trimmed(16, Seq::empty(), 0);
            assert(all =~= repeated(0x20, 16) + Seq::<u8>::empty() + repeated(0x20, 0));
        },
        Some(x) => {
            let text: Seq<u8> = match x.val {
                Some(v) => v@,
                None => Seq::empty(),
            };
            let number = pad_left(text, 14, 0x20);
            assert(number.len() == 14);
            assert(all.take(14) =~= number);
            assert(number =~= repeated(0x20, 14 - text.len()) + text + repeated(0x20, 0));
            if text.len() > 0 {
                assert(is_solid(text[0]) && is_solid(text[text.len() - 1]));
                assert(is_solid(all[14 - text.len()])) by {
                    assert(all[14 - text.len()] == text[0]);
                }
            }
            lemma_trimmed(14 - text.len(), text, 0);
            lemma_no_number();
            assert forall|i: int| 0 <= i < 16 implies 0x20 <= #[trigger] all[i] <= 0x7e by {
                if 14 - text.len() <= i < 14 {
                    assert(is_solid(text[i - (14 - text.len())]));
                }
            }
            if x.val is Some {
                lemma_not_blank(all, 14 - text.len());
            } else {
                assert(is_solid(all[14]));
                lemma_not_blank(all, 14);
            }
        },
    }
}

/// The fields of a satellite stand in sixteen columns each.
pub proof fn lemma_fields_text(fields: Seq<(ObsCode, ObsField<&[u8]>)>, codes: Seq<ObsCode>)
    requires
        fields_ok(fields),
    ensures
        fields_text(fields, codes).len() == 16 * codes.len(),
        forall|i: int|
            0 <= i < fields_text(fields, codes).len() ==> 0x20 <= #[trigger] fields_text(
                fields,
                codes,
            )[i] <= 0x7e,
        forall|k: int|
            0 <= k < codes.len() ==> fields_text(fields, codes).subrange(16 * k, 16 * k + 16)
                == field_text(field_of(fields, #[trigger] codes[k])),
    decreases codes.len(),
{
    if codes.len() > 0 {
        let c = codes.drop_last();
        lemma_fields_text(fields, c);
        lemma_field_found(fields, codes.last());
        lemma_field_text(field_of(fields, codes.last()));
        let before = fields_text(fields, c);
        let last = field_text(field_of(fields, codes.last()));
        let all = fields_text(fields, codes);
        assert(all == before + last);
        assert forall|i: int| 0 <= i < all.len() implies 0x20 <= #[trigger] all[i] <= 0x7e by {
            if i < before.len() {
                assert(all[i] == before[i]);
            } else {
                assert(all[i] == last[i - before.len()]);
            }
        }
        assert forall|k: int| 0 <= k < codes.len() implies all.subrange(16 * k, 16 * k + 16)
            == field_text(field_of(fields, #[trigger] codes[k])) by {
            if k < c.len() {
                assert(c[k] == codes[k]);
                assert(all.subrange(16 * k, 16 * k + 16) =~= before.subrange(16 * k, 16 * k + 16));
            } else {
                assert(all.subrange(16 * k, 16 * k + 16) =~= last);
            }
        }
    }
}

/// A field that is found is one of the fields.
pub proof fn lemma_field_found(fields: Seq<(ObsCode, ObsField<&[u8]>)>, code: ObsCode)
    requires
        fields_ok(fields),
    ensures
        field_of(fields, code) matches Some(f) ==> field_ok(f),
{
    crate::rinexobs::lemma_field_index_bound(fields, code);
}

// ---- one satellite ----

/// Values with the field of an observation type.
pub open spec fn with_cell(
    v: SignalValues<Seq<u8>, Seq<u8>>,
    typ: u8,
    f: ObsField<&[u8]>,
) -> SignalValues<Seq<u8>, Seq<u8>> {
    if typ == TYPE_CODE {
        SignalValues { pr: value_or(v.pr, val_text(f)), ..v }
    } else if typ == TYPE_PHASE {
        let w = SignalValues { cp: value_or(v.cp, val_text(f)), ..v };
        if f.lli != 0 {
            with_lli(w, f.lli)
        } else {
            w
        }
    } else if typ == TYPE_DOPPLER {
        SignalValues { dop: value_or(v.dop, val_text(f)), ..v }
    } else if typ == TYPE_SIGNAL_STRENGTH {
        SignalValues { cn0: value_or(v.cn0, val_text(f)), ..v }
    } else {
        v
    }
}

/// What the fields under the first `n` codes say of a signal.
pub open spec fn cells(
    fields: Seq<(ObsCode, ObsField<&[u8]>)>,
    codes: Seq<ObsCode>,
    n: int,
    sig: SigId,
    frq: Option<i8>,
) -> SignalValues<Seq<u8>, Seq<u8>>
    decreases n,
{
    if n <= 0 {
        SignalValues { frq, ..no_values() }
    } else {
        let v = cells(fields, codes, n - 1, sig, frq);
        match field_of(fields, codes[n - 1]) {
            Some(f) if code_signal(codes[n - 1]) == sig => with_cell(v, codes[n - 1].0@[0], f),
            _ => v,
        }
    }
}

/// Whether a signal has a field under the first `n` codes.
pub open spec fn has_field(
    fields: Seq<(ObsCode, ObsField<&[u8]>)>,
    codes: Seq<ObsCode>,
    n: int,
    sig: SigId,
) -> bool {
    exists|k: int|
        0 <= k < n && code_signal(#[trigger] codes[k]) == sig && field_of(fields, codes[k]) is Some
}

/// Whether observations are those of a satellite that fields say something of:
/// one for each signal that has a field.
pub open spec fn line_read(
    d: Seq<u8>,
    os: Seq<ReadObservation>,
    fields: Seq<(ObsCode, ObsField<&[u8]>)>,
    codes: Seq<ObsCode>,
    n: int,
    t: GpsTime,
    sat: SatId,
    frq: Option<i8>,
) -> bool {
    &&& forall|j: int|
        0 <= j < os.len() ==> {
            let o = #[trigger] os[j];
            &&& o.t == t
            &&& o.sat == sat
            &&& has_field(fields, codes, n, o.sig)
            &&& values_text(d, o.v) == cells(fields, codes, n, o.sig, frq)
        }
    &&& forall|i: int, j: int|
        0 <= i < j < os.len() ==> (#[trigger] os[i]).sig != (#[trigger] os[j]).sig
    &&& forall|sig: SigId|
        #![trigger has_field(fields, codes, n, sig)]
        has_field(fields, codes, n, sig) ==> exists|j: int|
            0 <= j < os.len() && (#[trigger] os[j]).sig == sig
}

/// The number and the indicator in the columns of a field.
proof fn lemma_field_columns(
    d: Seq<u8>,
    base: int,
    line: Seq<u8>,
    start: int,
    f: ObsField<&[u8]>,
)
    requires
        0 <= base,
        base + line.len() <= d.len() <= usize::MAX,
        d.subrange(base, base + line.len()) == line,
        0 <= start,
        start + 16 <= line.len(),
        line.subrange(start, start + 16) == field_text(Some(f)),
        field_ok(f),
    ensures
        option_text(d, number_at(line, start, base)) == val_text(f),
        digit_at(line, start + 15) is None,
        digit_at(line, start + 14) == (if f.lli == 0 {
            None::<u8>
        } else {
            Some(f.lli)
        }),
{
    let cell = field_text(Some(f));
    lemma_field_text(Some(f));
    let x = cols(line, start, start + 14);
    assert(x =~= cell.take(14));
    assert(line.subrange(start, start + 14) =~= x);
    assert(line[start + 14] == cell[14]);
    assert(line[start + 15] == cell[15]);
    crate::columns::lemma_trim_range(x);
    lemma_same_place(d, base, line, start, x, trim_range(x));
    assert(is_float_text(trimmed(x)) <==> f.val is Some);
}

/// A part of some columns of a line stands at its place in the file.
pub proof fn lemma_same_place(
    d: Seq<u8>,
    base: int,
    line: Seq<u8>,
    start: int,
    x: Seq<u8>,
    r: (int, int),
)
    requires
        0 <= base,
        base + line.len() <= d.len() <= usize::MAX,
        d.subrange(base, base + line.len()) == line,
        0 <= start,
        start + x.len() <= line.len(),
        line.subrange(start, start + x.len()) == x,
        0 <= r.0 <= r.1 <= x.len(),
    ensures
        reading_text(d, reading(base + start, r)) == x.subrange(r.0, r.1),
{
    assert(d.subrange(base + start + r.0, base + start + r.1) =~= x.subrange(r.0, r.1)) by {
        assert forall|i: int| r.0 <= i < r.1 implies d[base + start + i] == x[i] by {
            assert(line[start + i] == d[base + start + i]);
            assert(line.subrange(start, start + x.len())[i] == x[i]);
        }
    }
}

/// What a field adds to values is what its columns say.
proof fn lemma_with_field(
    d: Seq<u8>,
    base: int,
    line: Seq<u8>,
    start: int,
    v: SignalValues<Reading, Reading>,
    typ: u8,
    f: ObsField<&[u8]>,
)
    requires
        0 <= base,
        base + line.len() <= d.len() <= usize::MAX,
        d.subrange(base, base + line.len()) == line,
        0 <= start,
        start + 16 <= line.len(),
        line.subrange(start, start + 16) == field_text(Some(f)),
        field_ok(f),
    ensures
        values_text(d, with_field(v, typ, line, start, base)) == with_cell(
            values_text(d, v),
            typ,
            f,
        ),
{
    lemma_field_columns(d, base, line, start, f);
}

proof fn lemma_signal_place(os: Seq<ReadObservation>, sig: SigId)
    ensures
        0 <= signal_index(os, sig) <= os.len(),
        signal_index(os, sig) < os.len() ==> os[signal_index(os, sig)].sig == sig,
        signal_index(os, sig) == os.len() ==> forall|j: int|
            0 <= j < os.len() ==> (#[trigger] os[j]).sig != sig,
    decreases os.len(),
{
    if os.len() > 0 && os[0].sig != sig {
        let t = os.skip(1);
        lemma_signal_place(t, sig);
        if signal_index(t, sig) == t.len() {
            assert forall|j: int| 0 <= j < os.len() implies (#[trigger] os[j]).sig != sig by {
                if j > 0 {
                    assert(t[j - 1] == os[j]);
                }
            }
        }
    }
}

proof fn lemma_has_field_step(
    fields: Seq<(ObsCode, ObsField<&[u8]>)>,
    codes: Seq<ObsCode>,
    n: int,
    sig: SigId,
)
    requires
        0 < n <= codes.len(),
    ensures
        has_field(fields, codes, n, sig) <==> has_field(fields, codes, n - 1, sig) || (code_signal(
            codes[n - 1],
        ) == sig && field_of(fields, codes[n - 1]) is Some),
{
    if has_field(fields, codes, n - 1, sig) {
        let k = choose|k: int|
            0 <= k < n - 1 && code_signal(#[trigger] codes[k]) == sig && field_of(fields, codes[k])
                is Some;
        assert(0 <= k < n && code_signal(codes[k]) == sig);
    }
    if has_field(fields, codes, n, sig) {
        let k = choose|k: int|
            0 <= k < n && code_signal(#[trigger] codes[k]) == sig && field_of(fields, codes[k])
                is Some;
        if k < n - 1 {
            assert(code_signal(codes[k]) == sig);
        }
    }
}

/// The fields of a line are read as what they were written for.
pub proof fn lemma_line_read(
    d: Seq<u8>,
    base: int,
    line: Seq<u8>,
    fields: Seq<(ObsCode, ObsField<&[u8]>)>,
    codes: Seq<ObsCode>,
    n: int,
    t: GpsTime,
    sat: SatId,
    frq: Option<i8>,
)
    requires
        0 <= base,
        base + line.len() <= d.len() <= usize::MAX,
        d.subrange(base, base + line.len()) == line,
        fields_ok(fields),
        line.len() == 3 + 16 * codes.len(),
        line.skip(3) == fields_text(fields, codes),
        0 <= n <= codes.len(),
    ensures
        line_read(
            d,
            line_observations(line, base, codes, n, t, sat, frq),
            fields,
            codes,
            n,
            t,
            sat,
            frq,
        ),
    decreases n,
{
    let os = line_observations(line, base, codes, n, t, sat, frq);
    if n == 0 {
        assert(os.len() == 0);
        assert forall|sig: SigId| !has_field(fields, codes, 0, sig) by {}
    } else {
        lemma_line_read(d, base, line, fields, codes, n - 1, t, sat, frq);
        let before = line_observations(line, base, codes, n - 1, t, sat, frq);
        let start = 3 + 16 * (n - 1);
        let code = codes[n - 1];
        let sig = code_signal(code);
        let cell = field_of(fields, code);
        lemma_fields_text(fields, codes);
        lemma_field_found(fields, code);
        lemma_field_text(cell);
        assert(line.subrange(start, start + 16) =~= line.skip(3).subrange(
            16 * (n - 1),
            16 * (n - 1) + 16,
        ));
        assert(cols(line, start, start + 16) =~= line.subrange(start, start + 16));
        assert forall|g: SigId| #[trigger]
            has_field(fields, codes, n, g) <==> has_field(fields, codes, n - 1, g) || (g == sig
                && cell is Some) by {
            lemma_has_field_step(fields, codes, n, g);
        }
        match cell {
            None => {
                assert(os == before);
                assert forall|g: SigId| has_field(fields, codes, n, g) implies exists|j: int|
                    0 <= j < os.len() && (#[trigger] os[j]).sig == g by {
                    assert(has_field(fields, codes, n - 1, g));
                }
            },
            Some(f) => {
                lemma_signal_place(before, sig);
                let k = signal_index(before, sig);
                let fresh = new_observation(t, sat, sig, frq);
                let v = if k < before.len() {
                    before[k].v
                } else {
                    fresh.v
                };
                lemma_with_field(d, base, line, start, v, code.0@[0], f);
                if k < before.len() {
                    assert(os.len() == before.len());
                    assert forall|j: int| 0 <= j < os.len() implies ({
                        let o = #[trigger] os[j];
                        &&& o.t == t
                        &&& o.sat == sat
                        &&& has_field(fields, codes, n, o.sig)
                        &&& values_text(d, o.v) == cells(fields, codes, n, o.sig, frq)
                    }) by {
                        let p = before[j];
                        assert(has_field(fields, codes, n - 1, p.sig));
                        if j != k {
                            assert(before[j].sig != before[k].sig);
                        }
                    }
                    assert forall|g: SigId| has_field(fields, codes, n, g) implies exists|j: int|
                        0 <= j < os.len() && (#[trigger] os[j]).sig == g by {
                        if g == sig {
                            assert(os[k].sig == g);
                        } else {
                            assert(has_field(fields, codes, n - 1, g));
                            let j = choose|j: int|
                                0 <= j < before.len() && (#[trigger] before[j]).sig == g;
                            assert(os[j].sig == g);
                        }
                    }
                    assert forall|i: int, j: int| 0 <= i < j < os.len() implies (
                    #[trigger] os[i]).sig != (#[trigger] os[j]).sig by {
                        assert(before[i].sig != before[j].sig);
                    }
                } else {
                    assert(!has_field(fields, codes, n - 1, sig)) by {
                        if has_field(fields, codes, n - 1, sig) {
                            let j = choose|j: int|
                                0 <= j < before.len() && (#[trigger] before[j]).sig == sig;
                            assert(before[j].sig != sig);
                        }
                    }
                    lemma_no_cells(fields, codes, n - 1, sig, frq);
                    assert(values_text(d, fresh.v) == cells(fields, codes, n - 1, sig, frq));
                    assert forall|j: int| 0 <= j < os.len() implies ({
                        let o = #[trigger] os[j];
                        &&& o.t == t
                        &&& o.sat == sat
                        &&& has_field(fields, codes, n, o.sig)
                        &&& values_text(d, o.v) == cells(fields, codes, n, o.sig, frq)
                    }) by {
                        if j < before.len() {
                            assert(os[j] == before[j]);
                            assert(before[j].sig != sig);
                            assert(has_field(fields, codes, n - 1, before[j].sig));
                        }
                    }
                    assert forall|g: SigId| has_field(fields, codes, n, g) implies exists|j: int|
                        0 <= j < os.len() && (#[trigger] os[j]).sig == g by {
                        if g == sig {
                            assert(os[before.len() as int].sig == g);
                        } else {
                            assert(has_field(fields, codes, n - 1, g));
                            let j = choose|j: int|
                                0 <= j < before.len() && (#[trigger] before[j]).sig == g;
                            assert(os[j].sig == g);
                        }
                    }
                    assert forall|i: int, j: int| 0 <= i < j < os.len() implies (
                    #[trigger] os[i]).sig != (#[trigger] os[j]).sig by {
                        if j < before.len() {
                            assert(before[i].sig != before[j].sig);
                        } else {
                            assert(before[i].sig != sig);
                        }
                    }
                }
            },
        }
    }
}

proof fn lemma_no_cells(
    fields: Seq<(ObsCode, ObsField<&[u8]>)>,
    codes: Seq<ObsCode>,
    n: int,
    sig: SigId,
    frq: Option<i8>,
)
    requires
        0 <= n <= codes.len(),
        !has_field(fields, codes, n, sig),
    ensures
        cells(fields, codes, n, sig, frq) == (SignalValues { frq, ..no_values::<Seq<u8>, Seq<u8>>() }),
    decreases n,
{
    if n > 0 {
        lemma_has_field_step(fields, codes, n, sig);
        lemma_no_cells(fields, codes, n - 1, sig, frq);
    }
}

/// The line of a satellite is read as what it was written for.
pub proof fn lemma_sat_line(
    d: Seq<u8>,
    pos: int,
    r: SatRecordView<&[u8]>,
    t: GpsTime,
    h: ObsHeaderView,
) -> (os: Seq<ReadObservation>)
    requires
        0 <= pos,
        pos + sat_text(r, h.codes).len() <= d.len() <= usize::MAX,
        d.subrange(pos, pos + sat_text(r, h.codes).len()) == sat_text(r, h.codes),
        sat_valid(r.sat.0@),
        fields_ok(r.fields),
    ensures
        sat_line(line_at(d, pos), pos, t, h) == Ok::<Seq<ReadObservation>, Seq<char>>(os),
        after_line(d, pos) == pos + sat_text(r, h.codes).len(),
        line_read(
            d,
            os,
            r.fields,
            codes_for(h.codes, r.sat),
            codes_for(h.codes, r.sat).len() as int,
            t,
            r.sat,
            fx_value(h.frq, sat_number(r.sat)),
        ),
{
    let codes = codes_for(h.codes, r.sat);
    let id = r.sat.0@;
    lemma_ascii_valid(id);
    let text = sat_text(r, h.codes);
    let line = id + fields_text(r.fields, codes);
    lemma_fields_text(r.fields, codes);
    assert(text =~= line.push(0x0a));
    assert(text.len() == line.len() + 1);
    assert forall|i: int| 0 <= i < line.len() implies 0x20 <= #[trigger] line[i] <= 0x7e by {
        if i >= 3 {
            assert(line[i] == fields_text(r.fields, codes)[i - 3]);
        }
    }
    assert(d.subrange(pos, pos + line.len()) =~= line) by {
        assert forall|i: int| 0 <= i < line.len() implies d[pos + i] == line[i] by {
            assert(text[i] == d.subrange(pos, pos + text.len())[i]);
        }
    }
    assert(d[pos + line.len()] == 0x0a) by {
        assert(text[line.len() as int] == d.subrange(pos, pos + text.len())[line.len() as int]);
    }
    lemma_line_found(d, pos, line);
    assert(line.skip(3) =~= fields_text(r.fields, codes));
    let frq = fx_value(h.frq, sat_number(r.sat));
    lemma_line_read(d, pos, line, r.fields, codes, codes.len() as int, t, r.sat, frq);
    assert(first_three(line) =~= id);
    assert(r.sat.0 =~= [id[0], id[1], id[2]]);
    line_observations(line, pos, codes, codes.len() as int, t, r.sat, frq)
}

// ---- one epoch ----

/// Whether an observation is what the record of a satellite says of a signal.
pub open spec fn of_record(
    d: Seq<u8>,
    o: ReadObservation,
    r: SatRecordView<&[u8]>,
    t: GpsTime,
    h: ObsHeaderView,
) -> bool {
    let codes = codes_for(h.codes, r.sat);
    let n = codes.len() as int;
    &&& o.t == t
    &&& o.sat == r.sat
    &&& has_field(r.fields, codes, n, o.sig)
    &&& values_text(d, o.v) == cells(
        r.fields,
        codes,
        n,
        o.sig,
        fx_value(h.frq, sat_number(r.sat)),
    )
}

/// Whether the record of a satellite says something of a signal.
pub open spec fn tells(r: SatRecordView<&[u8]>, sig: SigId, h: ObsHeaderView) -> bool {
    has_field(
        r.fields,
        codes_for(h.codes, r.sat),
        codes_for(h.codes, r.sat).len() as int,
        sig,
    )
}

/// Whether an observation is what one of the records says.
pub open spec fn of_records(
    d: Seq<u8>,
    o: ReadObservation,
    sats: Seq<SatRecordView<&[u8]>>,
    t: GpsTime,
    h: ObsHeaderView,
) -> bool {
    exists|i: int| 0 <= i < sats.len() && of_record(d, o, #[trigger] sats[i], t, h)
}

/// Whether one of the observations is of a satellite and signal.
pub open spec fn observed(os: Seq<ReadObservation>, sat: SatId, sig: SigId) -> bool {
    exists|j: int| 0 <= j < os.len() && (#[trigger] os[j]).sat == sat && os[j].sig == sig
}

/// Whether observations are those that the records of an epoch tell of, each
/// once.
pub open spec fn epoch_read(
    d: Seq<u8>,
    os: Seq<ReadObservation>,
    sats: Seq<SatRecordView<&[u8]>>,
    t: GpsTime,
    h: ObsHeaderView,
) -> bool {
    &&& forall|j: int| 0 <= j < os.len() ==> of_records(d, #[trigger] os[j], sats, t, h)
    &&& forall|i: int, j: int|
        0 <= i < j < os.len() ==> (#[trigger] os[i]).key() != (#[trigger] os[j]).key()
    &&& forall|i: int, sig: SigId|
        0 <= i < sats.len() && #[trigger] tells(sats[i], sig, h) ==> observed(
            os,
            sats[i].sat,
            sig,
        )
}

/// Whether records are of different satellites, all valid, and have fields that
/// can be read again.
pub open spec fn records_ok(sats: Seq<SatRecordView<&[u8]>>) -> bool {
    &&& forall|i: int|
        0 <= i < sats.len() ==> sat_valid((#[trigger] sats[i]).sat.0@) && fields_ok(sats[i].fields)
    &&& forall|i: int, j: int|
        0 <= i < j < sats.len() ==> (#[trigger] sats[i]).sat != (#[trigger] sats[j]).sat
}

proof fn lemma_sats_text_front(sats: Seq<SatRecordView<&[u8]>>, codes: Seq<Seq<ObsCode>>)
    requires
        sats.len() > 0,
    ensures
        sats_text(sats, codes) == sat_text(sats[0], codes) + sats_text(sats.skip(1), codes),
    decreases sats.len(),
{
    let t = sats.skip(1);
    if t.len() == 0 {
        assert(sats_text(t, codes) =~= Seq::<u8>::empty());
        assert(sats_text(sats.drop_last(), codes) =~= Seq::<u8>::empty());
        assert(sats_text(sats, codes) =~= sat_text(sats[0], codes) + sats_text(t, codes));
    } else {
        lemma_sats_text_front(sats.drop_last(), codes);
        assert(sats.drop_last().skip(1) =~= t.drop_last());
        assert(sats.drop_last()[0] == sats[0]);
        assert(sats.last() == t.last());
        assert(sats_text(sats, codes) =~= sat_text(sats[0], codes) + (sats_text(
            t.drop_last(),
            codes,
        ) + sat_text(t.last(), codes)));
    }
}

proof fn lemma_epoch_joined(
    d: Seq<u8>,
    first: Seq<ReadObservation>,
    rest: Seq<ReadObservation>,
    sats: Seq<SatRecordView<&[u8]>>,
    t: GpsTime,
    h: ObsHeaderView,
)
    requires
        sats.len() > 0,
        records_ok(sats),
        epoch_read(d, rest, sats.skip(1), t, h),
        line_read(
            d,
            first,
            sats[0].fields,
            codes_for(h.codes, sats[0].sat),
            codes_for(h.codes, sats[0].sat).len() as int,
            t,
            sats[0].sat,
            fx_value(h.frq, sat_number(sats[0].sat)),
        ),
    ensures
        epoch_read(d, first + rest, sats, t, h),
{
    let os = first + rest;
    let tail = sats.skip(1);
    assert forall|j: int| 0 <= j < os.len() implies of_records(d, #[trigger] os[j], sats, t, h) by {
        if j < first.len() {
            assert(os[j] == first[j]);
            assert(of_record(d, os[j], sats[0], t, h));
        } else {
            assert(os[j] == rest[j - first.len()]);
            assert(of_records(d, rest[j - first.len()], tail, t, h));
            let i = choose|i: int|
                0 <= i < tail.len() && of_record(d, os[j], #[trigger] tail[i], t, h);
            assert(of_record(d, os[j], sats[i + 1], t, h));
        }
    }
    assert forall|i: int, j: int| 0 <= i < j < os.len() implies (#[trigger] os[i]).key() != (
    #[trigger] os[j]).key() by {
        if j < first.len() {
            assert(first[i].sig != first[j].sig);
        } else if i >= first.len() {
            assert(rest[i - first.len()].key() != rest[j - first.len()].key());
        } else {
            assert(os[i] == first[i] && os[i].sat == sats[0].sat);
            assert(of_records(d, rest[j - first.len()], tail, t, h));
            let k = choose|k: int|
                0 <= k < tail.len() && of_record(d, os[j], #[trigger] tail[k], t, h);
            assert(tail[k] == sats[k + 1]);
            assert(sats[0].sat != sats[k + 1].sat);
        }
    }
    assert forall|i: int, sig: SigId|
        0 <= i < sats.len() && #[trigger] tells(sats[i], sig, h) implies observed(
        os,
        sats[i].sat,
        sig,
    ) by {
        if i == 0 {
            let j = choose|j: int| 0 <= j < first.len() && (#[trigger] first[j]).sig == sig;
            assert(os[j] == first[j]);
        } else {
            assert(tells(tail[i - 1], sig, h));
            let j = choose|j: int|
                0 <= j < rest.len() && (#[trigger] rest[j]).sat == sats[i].sat && rest[j].sig
                    == sig;
            assert(os[first.len() + j] == rest[j]);
        }
    }
}

/// The lines of satellites are read as what they were written for.
pub proof fn lemma_sat_lines(
    d: Seq<u8>,
    pos: int,
    sats: Seq<SatRecordView<&[u8]>>,
    t: GpsTime,
    h: ObsHeaderView,
    before: Seq<ReadObservation>,
) -> (os: Seq<ReadObservation>)
    requires
        0 <= pos,
        pos + sats_text(sats, h.codes).len() <= d.len() <= usize::MAX,
        d.subrange(pos, pos + sats_text(sats, h.codes).len()) == sats_text(sats, h.codes),
        records_ok(sats),
    ensures
        sat_lines(d, pos, sats.len() as int, t, h, before) == Ok::<
            (int, Seq<ReadObservation>),
            Seq<char>,
        >((pos + sats_text(sats, h.codes).len(), before + os)),
        epoch_read(d, os, sats, t, h),
    decreases sats.len(),
{
    if sats.len() == 0 {
        assert(before + Seq::<ReadObservation>::empty() =~= before);
        Seq::empty()
    } else {
        let text = sats_text(sats, h.codes);
        let head = sat_text(sats[0], h.codes);
        let tail = sats.skip(1);
        lemma_sats_text_front(sats, h.codes);
        let here = d.subrange(pos, pos + text.len());
        assert(d.subrange(pos, pos + head.len()) =~= head) by {
            assert forall|i: int| 0 <= i < head.len() implies d[pos + i] == head[i] by {
                assert(here[i] == text[i]);
            }
        }
        let next = pos + head.len();
        assert(d.subrange(next, next + sats_text(tail, h.codes).len()) =~= sats_text(
            tail,
            h.codes,
        )) by {
            assert forall|i: int| 0 <= i < sats_text(tail, h.codes).len() implies d[next + i]
                == sats_text(tail, h.codes)[i] by {
                assert(here[head.len() + i] == text[head.len() + i]);
            }
        }
        assert(sat_valid(sats[0].sat.0@));
        let first = lemma_sat_line(d, pos, sats[0], t, h);
        assert(records_ok(tail)) by {
            assert forall|i: int| 0 <= i < tail.len() implies sat_valid(
                (#[trigger] tail[i]).sat.0@,
            ) && fields_ok(tail[i].fields) by {
                assert(tail[i] == sats[i + 1]);
            }
            assert forall|i: int, j: int| 0 <= i < j < tail.len() implies (#[trigger] tail[i]).sat
                != (#[trigger] tail[j]).sat by {
                assert(sats[i + 1].sat != sats[j + 1].sat);
            }
        }
        let rest = lemma_sat_lines(d, next, tail, t, h, before + first);
        lemma_epoch_joined(d, first, rest, sats, t, h);
        assert(before + first + rest =~= before + (first + rest));
        assert(pos < d.len());
        first + rest
    }
}

// ---- the line with which an epoch begins ----

/// Whether the second of a time can be counted in nanoseconds.
pub open spec fn countable(t: GpsTime) -> bool {
    &&& t.in_range()
    &&& i64::MIN <= (t.0 * 100) / 1_000_000_000 * 1_000_000_000
}

pub proof fn lemma_digits_solid(s: Seq<u8>)
    requires
        all_digits(s),
    ensures
        solid(s),
{
    assert forall|i: int| 0 <= i < s.len() implies is_solid(#[trigger] s[i]) by {
        assert(is_digit(s[i]));
    }
}

/// A number with leading zeros is read as the number.
pub proof fn lemma_padded_number(n: nat, w: int)
    requires
        w > 0,
        dec(n).len() <= w,
    ensures
        zero_padded(n, w).len() == w,
        solid(zero_padded(n, w)),
        trimmed(zero_padded(n, w)) == zero_padded(n, w),
        uint_text(zero_padded(n, w)) == Some(n as int),
        int_text(zero_padded(n, w)) == Some(n as int),
{
    let s = zero_padded(n, w);
    lemma_zero_padded(n, w);
    lemma_digits_solid(s);
    assert(is_solid(s[0]) && is_solid(s[s.len() - 1]));
    lemma_trimmed(0, s, 0);
    assert(repeated(0x20, 0) + s + repeated(0x20, 0) =~= s);
    assert(is_digit(s[0]));
}

/// A number behind blanks is read as the number.
pub proof fn lemma_blank_number(n: nat, w: int)
    requires
        dec(n).len() <= w,
    ensures
        pad_left(dec(n), w, 0x20).len() == w,
        trimmed(pad_left(dec(n), w, 0x20)) == dec(n),
        int_text(dec(n)) == Some(n as int),
{
    let s = dec(n);
    lemma_dec_value(n);
    lemma_digits_solid(s);
    assert(is_solid(s[0]) && is_solid(s[s.len() - 1]));
    lemma_trimmed(w - s.len(), s, 0);
    assert(pad_left(s, w, 0x20) =~= repeated(0x20, w - s.len()) + s + repeated(0x20, 0));
    assert(is_digit(s[0]));
}

/// The parts of the line with which an epoch begins.
proof fn lemma_head_columns(
    y: Seq<u8>,
    mo: Seq<u8>,
    d: Seq<u8>,
    h: Seq<u8>,
    mi: Seq<u8>,
    s: Seq<u8>,
    n: Seq<u8>,
)
    requires
        y.len() == 4,
        mo.len() == 2,
        d.len() == 2,
        h.len() == 2,
        mi.len() == 2,
        s.len() == 10,
        n.len() == 3,
    ensures
        ({
            let b = seq![0x20u8];
            let stamp = y + b + mo + b + d + b + h + b + mi + b;
            let head = seq![0x3eu8, 0x20u8] + stamp + s + seq![0x20u8, 0x20u8, 0x30u8] + n;
            let line = head + repeated(0x20, 56 - head.len());
            &&& head.len() == 35
            &&& line.len() == 56
            &&& line[0] == 0x3e
            &&& cols(line, 2, 6) == y
            &&& cols(line, 7, 9) == mo
            &&& cols(line, 10, 12) == d
            &&& cols(line, 13, 15) == h
            &&& cols(line, 16, 18) == mi
            &&& cols(line, 19, 29) == s
            &&& cols(line, 31, 32) == seq![0x30u8]
            &&& cols(line, 32, 35) == n
        }),
{
    let b = seq![0x20u8];
    let stamp = y + b + mo + b + d + b + h + b + mi + b;
    let head = seq![0x3eu8, 0x20u8] + stamp + s + seq![0x20u8, 0x20u8, 0x30u8] + n;
    let line = head + repeated(0x20, 56 - head.len());
    assert(stamp.len() == 17);
    assert(cols(line, 2, 6) =~= y);
    assert(cols(line, 7, 9) =~= mo);
    assert(cols(line, 10, 12) =~= d);
    assert(cols(line, 13, 15) =~= h);
    assert(cols(line, 16, 18) =~= mi);
    assert(cols(line, 19, 29) =~= s);
    assert(cols(line, 31, 32) =~= seq![0x30u8]);
    assert(cols(line, 32, 35) =~= n);
}

/// The time in an epoch line is read as the time it was written for.
pub proof fn lemma_epoch_time(t: GpsTime)
    requires
        countable(t),
    ensures
        ({
            let c = civil_at(t);
            rinex_time(
                zero_padded(c.year as nat, 4),
                zero_padded(c.month as nat, 2),
                zero_padded(c.day as nat, 2),
                zero_padded(c.hour as nat, 2),
                zero_padded(c.minute as nat, 2),
                second_text(c),
            ) == Ok::<GpsTime, Seq<char>>(t)
        }),
        second_text(civil_at(t)).len() == 10,
        trimmed(second_text(civil_at(t))) == second_text(civil_at(t)),
{
    let c = civil_at(t);
    lemma_civil_at(t);
    lemma_dec_len(c.year as nat);
    lemma_dec_len(c.month as nat);
    lemma_dec_len(c.day as nat);
    lemma_dec_len(c.hour as nat);
    lemma_dec_len(c.minute as nat);
    lemma_dec_len(c.second as nat);
    lemma_dec_len(c.nanos as nat / 100);
    crate::calendar::lemma_civil_days(c.year as int, c.month as int, c.day as int);
    lemma_padded_number(c.year as nat, 4);
    lemma_padded_number(c.month as nat, 2);
    lemma_padded_number(c.day as nat, 2);
    lemma_padded_number(c.hour as nat, 2);
    lemma_padded_number(c.minute as nat, 2);
    lemma_padded_number(c.second as nat, 2);
    lemma_padded_number(c.nanos as nat / 100, 7);
    let whole = zero_padded(c.second as nat, 2);
    let fraction = zero_padded(c.nanos as nat / 100, 7);
    let s = second_text(c);
    lemma_split_second(whole, fraction);
    assert(seven_places(fraction) =~= fraction);
    let e = Civil { nanos: 0, ..c };
    let q = c.unix() - crate::obs::EPOCH_UNIX;
    assert(e.unix() == c.unix());
    assert(q * 1_000_000_000 + c.nanos == t.0 * 100);
    assert(q == (t.0 * 100) / 1_000_000_000);
    assert(e.gps_ns() == q * 1_000_000_000);
    assert(e.valid());
    assert(-10_000_000_000 <= q <= 10_000_000_000);
    assert(-10_000_000_000 <= c.unix() <= 11_000_000_000);
    assert(c.days() * 86400 >= c.unix() - 86400);
    assert(e.gps_fits());
    assert(e.gps_ns() / 100 == q * 10_000_000);
    assert(c.nanos as int == 100 * (c.nanos as int / 100));
}

proof fn lemma_split_second(whole: Seq<u8>, fraction: Seq<u8>)
    requires
        whole.len() == 2,
        solid(whole),
        whole[0] != 0x2e && whole[1] != 0x2e,
        fraction.len() == 7,
        solid(fraction),
    ensures
        split_point(whole + seq![0x2eu8] + fraction) == (whole, fraction),
        (whole + seq![0x2eu8] + fraction).len() == 10,
        trimmed(whole + seq![0x2eu8] + fraction) == whole + seq![0x2eu8] + fraction,
{
    let s = whole + seq![0x2eu8] + fraction;
    lemma_first_index_is(s, 0x2e, 2);
    assert(s.take(2) =~= whole);
    assert(s.skip(3) =~= fraction);
    assert(is_solid(whole[0]) && is_solid(fraction[6]));
    assert(s[0] == whole[0] && s.last() == fraction[6]);
    lemma_trimmed(0, s, 0);
    assert(repeated(0x20, 0) + s + repeated(0x20, 0) =~= s);
}

pub proof fn lemma_plain_digits(n: nat, w: int)
    ensures
        plain(zero_padded(n, w)),
        plain(pad_left(dec(n), w, 0x20)),
{
    lemma_dec_value(n);
    let s = dec(n);
    assert forall|i: int| 0 <= i < s.len() implies 0x20 <= #[trigger] s[i] <= 0x7e by {
        assert(is_digit(s[i]));
    }
    lemma_plain_join(repeated(0x30, w - s.len()), s);
    lemma_plain_join(repeated(0x20, w - s.len()), s);
}

pub proof fn lemma_epoch_line_plain(c: Civil, n: nat)
    ensures
        plain(epoch_head(c, n)),
        plain(epoch_head(c, n) + repeated(0x20, 56 - epoch_head(c, n).len())),
{
    let b = seq![0x20u8];
    lemma_plain_digits(c.year as nat, 4);
    lemma_plain_digits(c.month as nat, 2);
    lemma_plain_digits(c.day as nat, 2);
    lemma_plain_digits(c.hour as nat, 2);
    lemma_plain_digits(c.minute as nat, 2);
    lemma_plain_digits(c.second as nat, 2);
    lemma_plain_digits(c.nanos as nat / 100, 7);
    lemma_plain_digits(n, 3);
    let y = zero_padded(c.year as nat, 4);
    let mo = zero_padded(c.month as nat, 2);
    let d = zero_padded(c.day as nat, 2);
    let h = zero_padded(c.hour as nat, 2);
    let mi = zero_padded(c.minute as nat, 2);
    lemma_plain_join(y, b);
    lemma_plain_join(y + b, mo);
    lemma_plain_join(y + b + mo, b);
    lemma_plain_join(y + b + mo + b, d);
    lemma_plain_join(y + b + mo + b + d, b);
    lemma_plain_join(y + b + mo + b + d + b, h);
    lemma_plain_join(y + b + mo + b + d + b + h, b);
    lemma_plain_join(y + b + mo + b + d + b + h + b, mi);
    lemma_plain_join(y + b + mo + b + d + b + h + b + mi, b);
    let whole = zero_padded(c.second as nat, 2);
    let fraction = zero_padded(c.nanos as nat / 100, 7);
    let point = seq![0x2eu8];
    lemma_plain_join(whole, point);
    lemma_plain_join(whole + point, fraction);
    let front = seq![0x3eu8, 0x20u8];
    let flag = seq![0x20u8, 0x20u8, 0x30u8];
    lemma_plain_join(front, stamp_text(c));
    lemma_plain_join(front + stamp_text(c), second_text(c));
    lemma_plain_join(front + stamp_text(c) + second_text(c), flag);
    lemma_plain_join(
        front + stamp_text(c) + second_text(c) + flag,
        pad_left(dec(n), 3, 0x20),
    );
    lemma_plain_join(epoch_head(c, n), repeated(0x20, 56 - epoch_head(c, n).len()));
}

/// The line with which an epoch begins is read as what it was written for.
pub proof fn lemma_epoch_line(t: GpsTime, n: nat)
    requires
        countable(t),
        n <= 999,
    ensures
        ({
            let text = epoch_first_line(civil_at(t), n);
            let line = text.drop_last();
            &&& text.len() == 57
            &&& text.last() == 0x0a
            &&& on_one_line(line)
            &&& trimmed(line).len() > 0
            &&& line[0] == 0x3e
            &&& epoch_line_fields(line) == Ok::<(int, int, GpsTime), Seq<char>>((0, n as int, t))
        }),
{
    let c = civil_at(t);
    lemma_epoch_time(t);
    lemma_civil_at(t);
    crate::calendar::lemma_civil_days(c.year as int, c.month as int, c.day as int);
    lemma_dec_len(c.year as nat);
    lemma_dec_len(c.month as nat);
    lemma_dec_len(c.day as nat);
    lemma_dec_len(c.hour as nat);
    lemma_dec_len(c.minute as nat);
    lemma_dec_len(n);
    let y = zero_padded(c.year as nat, 4);
    let mo = zero_padded(c.month as nat, 2);
    let d = zero_padded(c.day as nat, 2);
    let h = zero_padded(c.hour as nat, 2);
    let mi = zero_padded(c.minute as nat, 2);
    let s = second_text(c);
    let count = pad_left(dec(n), 3, 0x20);
    lemma_padded_number(c.year as nat, 4);
    lemma_padded_number(c.month as nat, 2);
    lemma_padded_number(c.day as nat, 2);
    lemma_padded_number(c.hour as nat, 2);
    lemma_padded_number(c.minute as nat, 2);
    lemma_blank_number(n, 3);
    lemma_blank_number(0, 1);
    lemma_head_columns(y, mo, d, h, mi, s, count);
    let text = epoch_first_line(c, n);
    let line = text.drop_last();
    assert(line =~= epoch_head(c, n) + repeated(0x20, 56 - epoch_head(c, n).len()));
    assert(pad_left(dec(0), 1, 0x20) =~= seq![0x30u8]);
    assert(dec(0) =~= seq![0x30u8]);
    lemma_dec_value(n);
    lemma_epoch_line_plain(c, n);
    lemma_not_blank(line, 0);
}

/// Where a line is followed by other text, both stand at their places.
proof fn lemma_lines_in_text(d: Seq<u8>, pos: int, first: Seq<u8>, rest: Seq<u8>)
    requires
        0 <= pos,
        first.len() > 0,
        pos + first.len() + rest.len() <= d.len(),
        d.subrange(pos, pos + first.len() + rest.len()) == first + rest,
    ensures
        d.subrange(pos, pos + first.len() - 1) == first.drop_last(),
        d[pos + first.len() - 1] == first.last(),
        d.subrange(pos + first.len(), pos + first.len() + rest.len()) == rest,
{
    let text = first + rest;
    assert forall|i: int| 0 <= i < text.len() implies d[pos + i] == text[i] by {
        assert(d.subrange(pos, pos + text.len())[i] == text[i]);
    }
    assert forall|i: int| 0 <= i < rest.len() implies d[pos + first.len() + i] == rest[i] by {
        assert(text[first.len() + i] == rest[i]);
    }
    assert(d[pos + (first.len() - 1)] == text[first.len() - 1]);
    assert(d.subrange(pos, pos + first.len() - 1) =~= first.drop_last());
    assert(d.subrange(pos + first.len(), pos + first.len() + rest.len()) =~= rest);
}

/// A line that opens an epoch has the lines of its satellites after it.
proof fn lemma_epoch_opened(
    d: Seq<u8>,
    pos: int,
    t: GpsTime,
    n: int,
    h: ObsHeaderView,
    before: Seq<ReadObservation>,
)
    requires
        trimmed(line_at(d, pos)).len() > 0,
        line_at(d, pos)[0] == 0x3e,
        epoch_line_fields(line_at(d, pos)) == Ok::<(int, int, GpsTime), Seq<char>>((0, n, t)),
        h.time_system == utf8("GPS"@),
    ensures
        one_epoch(d, pos, h, before) == sat_lines(d, after_line(d, pos), n, t, h, before),
{
    lemma_time_systems();
}

/// An epoch is read as what it was written for.
#[verifier::rlimit(60)]
#[verifier::spinoff_prover]
pub proof fn lemma_epoch_read(
    d: Seq<u8>,
    pos: int,
    e: EpochView<&[u8]>,
    h: ObsHeaderView,
    before: Seq<ReadObservation>,
) -> (os: Seq<ReadObservation>)
    requires
        0 <= pos,
        pos + epoch_text(e, h.codes).len() <= d.len() <= usize::MAX,
        d.subrange(pos, pos + epoch_text(e, h.codes).len()) == epoch_text(e, h.codes),
        epoch_ok(e),
        h.time_system == utf8("GPS"@),
    ensures
        one_epoch(d, pos, h, before) == Ok::<(int, Seq<ReadObservation>), Seq<char>>(
            (pos + epoch_text(e, h.codes).len(), before + os),
        ),
        epoch_read(d, os, e.sats, e.t, h),
{
    let text = epoch_text(e, h.codes);
    let first = epoch_first_line(civil_at(e.t), e.sats.len());
    let line = first.drop_last();
    let sats = sats_text(e.sats, h.codes);
    lemma_epoch_line(e.t, e.sats.len());
    let next = pos + first.len();
    assert(text =~= first + sats);
    lemma_lines_in_text(d, pos, first, sats);
    lemma_line_found(d, pos, line);
    lemma_epoch_opened(d, pos, e.t, e.sats.len() as int, h, before);
    lemma_sat_lines(d, next, e.sats, e.t, h, before)
}

// ---- the epochs of a file ----

/// Whether an epoch can be read again.
pub open spec fn epoch_ok(e: EpochView<&[u8]>) -> bool {
    &&& countable(e.t)
    &&& e.sats.len() <= 999
    &&& records_ok(e.sats)
}

/// Whether epochs can be read again and stand in the order of time.
pub open spec fn epochs_ok(epochs: Seq<EpochView<&[u8]>>) -> bool {
    &&& forall|i: int| 0 <= i < epochs.len() ==> epoch_ok(#[trigger] epochs[i])
    &&& forall|i: int, j: int|
        0 <= i < j < epochs.len() ==> (#[trigger] epochs[i]).t.0 < (#[trigger] epochs[j]).t.0
}

/// Whether an observation is what one of the epochs says.
pub open spec fn of_epochs(
    d: Seq<u8>,
    o: ReadObservation,
    epochs: Seq<EpochView<&[u8]>>,
    h: ObsHeaderView,
) -> bool {
    exists|e: int|
        0 <= e < epochs.len() && of_records(d, o, (#[trigger] epochs[e]).sats, epochs[e].t, h)
}

/// Whether one of the observations is of a time, a satellite and a signal.
pub open spec fn observed_at(
    os: Seq<ReadObservation>,
    t: GpsTime,
    sat: SatId,
    sig: SigId,
) -> bool {
    exists|j: int|
        0 <= j < os.len() && (#[trigger] os[j]).t == t && os[j].sat == sat && os[j].sig == sig
}

/// Whether observations are those that epochs tell of, each once, in the order of
/// time.
pub open spec fn epochs_read(
    d: Seq<u8>,
    os: Seq<ReadObservation>,
    epochs: Seq<EpochView<&[u8]>>,
    h: ObsHeaderView,
) -> bool {
    &&& forall|j: int| 0 <= j < os.len() ==> of_epochs(d, #[trigger] os[j], epochs, h)
    &&& forall|i: int, j: int|
        0 <= i < j < os.len() ==> {
            &&& (#[trigger] os[i]).t.0 <= (#[trigger] os[j]).t.0
            &&& os[i].t == os[j].t ==> os[i].key() != os[j].key()
        }
    &&& forall|e: int, i: int, sig: SigId|
        0 <= e < epochs.len() && 0 <= i < epochs[e].sats.len() && #[trigger] tells(
            epochs[e].sats[i],
            sig,
            h,
        ) ==> observed_at(os, epochs[e].t, epochs[e].sats[i].sat, sig)
}

proof fn lemma_epochs_joined(
    d: Seq<u8>,
    first: Seq<ReadObservation>,
    rest: Seq<ReadObservation>,
    epochs: Seq<EpochView<&[u8]>>,
    h: ObsHeaderView,
)
    requires
        epochs.len() > 0,
        epochs_ok(epochs),
        epoch_read(d, first, epochs[0].sats, epochs[0].t, h),
        epochs_read(d, rest, epochs.skip(1), h),
    ensures
        epochs_read(d, first + rest, epochs, h),
{
    let os = first + rest;
    let tail = epochs.skip(1);
    assert forall|j: int| 0 <= j < first.len() implies (#[trigger] first[j]).t == epochs[0].t by {
        assert(of_records(d, first[j], epochs[0].sats, epochs[0].t, h));
    }
    assert forall|j: int| 0 <= j < rest.len() implies (#[trigger] rest[j]).t.0 > epochs[0].t.0 by {
        assert(of_epochs(d, rest[j], tail, h));
        let e = choose|e: int|
            0 <= e < tail.len() && of_records(d, rest[j], (#[trigger] tail[e]).sats, tail[e].t, h);
        assert(tail[e] == epochs[e + 1]);
        assert(epochs[0].t.0 < epochs[e + 1].t.0);
    }
    assert forall|j: int| 0 <= j < os.len() implies of_epochs(d, #[trigger] os[j], epochs, h) by {
        if j < first.len() {
            assert(os[j] == first[j]);
            assert(of_records(d, first[j], epochs[0].sats, epochs[0].t, h));
        } else {
            let o = rest[j - first.len()];
            assert(os[j] == o);
            assert(of_epochs(d, o, tail, h));
            let e = choose|e: int|
                0 <= e < tail.len() && of_records(d, o, (#[trigger] tail[e]).sats, tail[e].t, h);
            assert(tail[e] == epochs[e + 1]);
        }
    }
    assert forall|i: int, j: int| 0 <= i < j < os.len() implies ({
        &&& (#[trigger] os[i]).t.0 <= (#[trigger] os[j]).t.0
        &&& os[i].t == os[j].t ==> os[i].key() != os[j].key()
    }) by {
        if j < first.len() {
            assert(os[i] == first[i] && os[j] == first[j]);
            assert(first[i].key() != first[j].key());
        } else if i >= first.len() {
            assert(os[i] == rest[i - first.len()] && os[j] == rest[j - first.len()]);
        } else {
            assert(os[i] == first[i] && os[j] == rest[j - first.len()]);
        }
    }
    assert forall|e: int, i: int, sig: SigId|
        0 <= e < epochs.len() && 0 <= i < epochs[e].sats.len() && #[trigger] tells(
            epochs[e].sats[i],
            sig,
            h,
        ) implies observed_at(os, epochs[e].t, epochs[e].sats[i].sat, sig) by {
        if e == 0 {
            let sat = epochs[0].sats[i].sat;
            assert(observed(first, sat, sig));
            let j = choose|j: int|
                0 <= j < first.len() && (#[trigger] first[j]).sat == sat && first[j].sig == sig;
            assert(os[j] == first[j]);
        } else {
            assert(tail[e - 1] == epochs[e]);
            assert(tells(tail[e - 1].sats[i], sig, h));
            let sat = epochs[e].sats[i].sat;
            assert(observed_at(rest, epochs[e].t, sat, sig));
            let j = choose|j: int|
                0 <= j < rest.len() && (#[trigger] rest[j]).t == epochs[e].t && rest[j].sat == sat
                    && rest[j].sig == sig;
            assert(os[first.len() + j] == rest[j]);
        }
    }
}

proof fn lemma_epochs_text_front(epochs: Seq<EpochView<&[u8]>>, codes: Seq<Seq<ObsCode>>)
    requires
        epochs.len() > 0,
    ensures
        epochs_text(epochs, codes) == epoch_text(epochs[0], codes) + epochs_text(
            epochs.skip(1),
            codes,
        ),
    decreases epochs.len(),
{
    let t = epochs.skip(1);
    if t.len() == 0 {
        assert(epochs_text(t, codes) =~= Seq::<u8>::empty());
        assert(epochs_text(epochs.drop_last(), codes) =~= Seq::<u8>::empty());
        assert(epochs_text(epochs, codes) =~= epoch_text(epochs[0], codes) + epochs_text(t, codes));
    } else {
        lemma_epochs_text_front(epochs.drop_last(), codes);
        assert(epochs.drop_last().skip(1) =~= t.drop_last());
        assert(epochs.drop_last()[0] == epochs[0]);
        assert(epochs.last() == t.last());
        assert(epochs_text(epochs, codes) =~= epoch_text(epochs[0], codes) + (epochs_text(
            t.drop_last(),
            codes,
        ) + epoch_text(t.last(), codes)));
    }
}

proof fn lemma_epochs_ok_tail(epochs: Seq<EpochView<&[u8]>>)
    requires
        epochs_ok(epochs),
        epochs.len() > 0,
    ensures
        epochs_ok(epochs.skip(1)),
{
    let tail = epochs.skip(1);
    assert forall|i: int| 0 <= i < tail.len() implies epoch_ok(#[trigger] tail[i]) by {
        assert(tail[i] == epochs[i + 1]);
    }
    assert forall|i: int, j: int| 0 <= i < j < tail.len() implies (#[trigger] tail[i]).t.0 < (
    #[trigger] tail[j]).t.0 by {
        assert(epochs[i + 1].t.0 < epochs[j + 1].t.0);
    }
}

/// Of two texts that stand behind each other, each stands at its place.
pub proof fn lemma_split_at(d: Seq<u8>, pos: int, head: Seq<u8>, rest: Seq<u8>)
    requires
        0 <= pos <= d.len(),
        d.skip(pos) == head + rest,
    ensures
        pos + head.len() <= d.len(),
        d.subrange(pos, pos + head.len()) == head,
        d.skip(pos + head.len()) == rest,
{
    let all = head + rest;
    assert(d.skip(pos).len() == all.len());
    assert(d.subrange(pos, pos + head.len()) =~= head) by {
        assert forall|i: int| 0 <= i < head.len() implies d[pos + i] == head[i] by {
            assert(d.skip(pos)[i] == all[i]);
        }
    }
    assert(d.skip(pos + head.len()) =~= rest) by {
        assert forall|i: int| 0 <= i < rest.len() implies d[pos + head.len() + i] == rest[i] by {
            assert(d.skip(pos)[head.len() + i] == all[head.len() + i]);
        }
    }
}

/// The epochs of a file are read as what they were written for.
pub proof fn lemma_epochs_read(
    d: Seq<u8>,
    pos: int,
    epochs: Seq<EpochView<&[u8]>>,
    h: ObsHeaderView,
    before: Seq<ReadObservation>,
) -> (os: Seq<ReadObservation>)
    requires
        0 <= pos,
        pos + epochs_text(epochs, h.codes).len() == d.len() <= usize::MAX,
        d.skip(pos) == epochs_text(epochs, h.codes),
        epochs_ok(epochs),
        h.time_system == utf8("GPS"@),
    ensures
        epochs_from(d, pos, h, before) == Ok::<Seq<ReadObservation>, Seq<char>>(before + os),
        epochs_read(d, os, epochs, h),
    decreases epochs.len(),
{
    if epochs.len() == 0 {
        assert(before + Seq::<ReadObservation>::empty() =~= before);
        Seq::empty()
    } else {
        let text = epochs_text(epochs, h.codes);
        let head = epoch_text(epochs[0], h.codes);
        let tail = epochs.skip(1);
        lemma_epochs_text_front(epochs, h.codes);
        lemma_split_at(d, pos, head, epochs_text(tail, h.codes));
        let next = pos + head.len();
        assert(epoch_ok(epochs[0]));
        assert(head.len() > 0) by {
            lemma_epoch_line(epochs[0].t, epochs[0].sats.len());
        }
        let first = lemma_epoch_read(d, pos, epochs[0], h, before);
        lemma_epochs_ok_tail(epochs);
        let rest = lemma_epochs_read(d, next, tail, h, before + first);
        lemma_epochs_joined(d, first, rest, epochs, h);
        assert(before + first + rest =~= before + (first + rest));
        first + rest
    }
}

} // verus!
