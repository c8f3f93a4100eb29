//! Reading a RINEX file gives back the observations that it was written from.

use crate::arc::{accumulated, arc_after, last_arc, with_arc};
use crate::ascii_lines::{lemma_epochs_ascii, lemma_header_ascii, lemma_join};
use crate::header_contents::{channel_ok, channels_in, channels_ok, code_ok, codes_ok, lists_ok};
use crate::keymap::fx_value;
use crate::metadata::MetadataView;
use crate::obs::{
    code_signal, lemma_lli_round_trip, lemma_sat_number_unique, lli_of, no_values, obs_code,
    sat_number, sat_valid, ObsCode, SatId, SigId, SignalKey, SignalObservation, SignalValues,
    TYPE_CODE, TYPE_DOPPLER, TYPE_PHASE, TYPE_SIGNAL_STRENGTH,
};
use crate::regroup::{
    epoch_from, epoch_holds, epochs_hold, given, grouped, holds, lemma_found_code, lemma_grouped,
    observation_ok, record_from, stream_ok,
};
use crate::reheader::{facts_read, header_ok, lemma_header_read};
use crate::reread::{
    cells, epoch_ok, epochs_ok, epochs_read, has_field, lemma_epochs_read, observed_at, of_epochs,
    of_record, of_records, records_ok, tells, val_text, values_text,
};
use crate::rinex_read::{file_contents, ObsHeaderView, ReadObservation, Reading};
use crate::rinex_write::{codes_for, epochs_text, file_text, glonass_only, whole_header, written};
use crate::rinexobs::{
    code_rank, code_used, codes_distinct, codes_listed, epochs_of, field_of, fields_of, frq_listed,
    frq_sorted, last_frq, slipped, system_rank, type_rank, writes, EpochView, ObsField,
    SatRecordView,
};
use crate::text::{is_ascii, lemma_ascii_valid};
use vstd::prelude::*;
use vstd::utf8::valid_utf8;

verus! {

// ---- what the fields of a signal say ----

/// Whether a code is among the first `n`.
spec fn listed(codes: Seq<ObsCode>, n: int, c: ObsCode) -> bool {
    exists|k: int| 0 <= k < n && #[trigger] codes[k] == c
}

proof fn lemma_listed_step(codes: Seq<ObsCode>, n: int, c: ObsCode)
    requires
        0 < n <= codes.len(),
    ensures
        listed(codes, n, c) <==> listed(codes, n - 1, c) || codes[n - 1] == c,
{
    if listed(codes, n - 1, c) {
        let k = choose|k: int| 0 <= k < n - 1 && #[trigger] codes[k] == c;
        assert(0 <= k < n && codes[k] == c);
    }
    if listed(codes, n, c) {
        let k = choose|k: int| 0 <= k < n && #[trigger] codes[k] == c;
        if k < n - 1 {
            assert(codes[k] == c);
        }
    }
}

/// The number under a code, where the code is among the first `n`.
spec fn number_under(
    fields: Seq<(ObsCode, ObsField<&[u8]>)>,
    codes: Seq<ObsCode>,
    n: int,
    c: ObsCode,
) -> Option<Seq<u8>> {
    match field_of(fields, c) {
        Some(f) if listed(codes, n, c) => val_text(f),
        _ => None,
    }
}

/// The indicator under the phase of a signal, where it is among the first `n`
/// codes.
spec fn indicator_under(
    fields: Seq<(ObsCode, ObsField<&[u8]>)>,
    codes: Seq<ObsCode>,
    n: int,
    sig: SigId,
) -> u8 {
    let c = obs_code(sig, TYPE_PHASE);
    match field_of(fields, c) {
        Some(f) if listed(codes, n, c) => f.lli,
        _ => 0,
    }
}

/// What the fields under the first `n` codes say of a signal.
spec fn cells_as(
    fields: Seq<(ObsCode, ObsField<&[u8]>)>,
    codes: Seq<ObsCode>,
    n: int,
    sig: SigId,
    frq: Option<i8>,
) -> SignalValues<Seq<u8>, Seq<u8>> {
    let lli = indicator_under(fields, codes, n, sig);
    SignalValues {
        frq,
        pr: number_under(fields, codes, n, obs_code(sig, TYPE_CODE)),
        cp: number_under(fields, codes, n, obs_code(sig, TYPE_PHASE)),
        dop: number_under(fields, codes, n, obs_code(sig, TYPE_DOPPLER)),
        cn0: number_under(fields, codes, n, obs_code(sig, TYPE_SIGNAL_STRENGTH)),
        arc: 0,
        hc: (lli / 2) % 2 == 1,
        bt: (lli / 4) % 2 == 1,
        ll: lli % 2 == 1,
    }
}

proof fn lemma_code_of(c: ObsCode, sig: SigId)
    requires
        code_signal(c) == sig,
    ensures
        c == obs_code(sig, c.0@[0]),
{
    assert(sig.0@[0] == c.0@[1] && sig.0@[1] == c.0@[2]);
    assert(c.0 =~= obs_code(sig, c.0@[0]).0);
}

proof fn lemma_codes_apart(sig: SigId)
    ensures
        obs_code(sig, TYPE_CODE) != obs_code(sig, TYPE_PHASE),
        obs_code(sig, TYPE_CODE) != obs_code(sig, TYPE_DOPPLER),
        obs_code(sig, TYPE_CODE) != obs_code(sig, TYPE_SIGNAL_STRENGTH),
        obs_code(sig, TYPE_PHASE) != obs_code(sig, TYPE_DOPPLER),
        obs_code(sig, TYPE_PHASE) != obs_code(sig, TYPE_SIGNAL_STRENGTH),
        obs_code(sig, TYPE_DOPPLER) != obs_code(sig, TYPE_SIGNAL_STRENGTH),
        forall|typ: u8| (#[trigger] obs_code(sig, typ)).0@[0] == typ,
        forall|typ: u8| code_signal(#[trigger] obs_code(sig, typ)) == sig,
{
    assert forall|typ: u8| (#[trigger] obs_code(sig, typ)).0@[0] == typ && code_signal(
        obs_code(sig, typ),
    ) == sig by {
        assert(code_signal(obs_code(sig, typ)).0 =~= sig.0);
    }
    assert(obs_code(sig, TYPE_CODE).0@[0] == TYPE_CODE);
    assert(obs_code(sig, TYPE_PHASE).0@[0] == TYPE_PHASE);
    assert(obs_code(sig, TYPE_DOPPLER).0@[0] == TYPE_DOPPLER);
    assert(obs_code(sig, TYPE_SIGNAL_STRENGTH).0@[0] == TYPE_SIGNAL_STRENGTH);
}

/// Distinct codes say of a signal what stands under its four codes.
proof fn lemma_cells(
    fields: Seq<(ObsCode, ObsField<&[u8]>)>,
    codes: Seq<ObsCode>,
    n: int,
    sig: SigId,
    frq: Option<i8>,
)
    requires
        0 <= n <= codes.len(),
        codes_distinct(codes),
        codes_ok(codes),
    ensures
        cells(fields, codes, n, sig, frq) == cells_as(fields, codes, n, sig, frq),
    decreases n,
{
    lemma_codes_apart(sig);
    if n == 0 {
        assert(!listed(codes, 0, obs_code(sig, TYPE_CODE)));
        assert(!listed(codes, 0, obs_code(sig, TYPE_PHASE)));
        assert(!listed(codes, 0, obs_code(sig, TYPE_DOPPLER)));
        assert(!listed(codes, 0, obs_code(sig, TYPE_SIGNAL_STRENGTH)));
    } else {
        lemma_cells(fields, codes, n - 1, sig, frq);
        let c = codes[n - 1];
        lemma_listed_step(codes, n, obs_code(sig, TYPE_CODE));
        lemma_listed_step(codes, n, obs_code(sig, TYPE_PHASE));
        lemma_listed_step(codes, n, obs_code(sig, TYPE_DOPPLER));
        lemma_listed_step(codes, n, obs_code(sig, TYPE_SIGNAL_STRENGTH));
        assert(!listed(codes, n - 1, c)) by {
            if listed(codes, n - 1, c) {
                let k = choose|k: int| 0 <= k < n - 1 && #[trigger] codes[k] == c;
                assert(code_rank(codes[k]) < code_rank(codes[n - 1]));
            }
        }
        if code_signal(c) == sig {
            lemma_code_of(c, sig);
            assert(code_ok(c));
        } else {
            assert(c != obs_code(sig, TYPE_CODE) && c != obs_code(sig, TYPE_PHASE) && c
                != obs_code(sig, TYPE_DOPPLER) && c != obs_code(sig, TYPE_SIGNAL_STRENGTH));
        }
    }
}

// ---- what becomes of an observation ----

/// The text of a number, where there is one.
pub open spec fn number_text(v: Option<&[u8]>) -> Option<Seq<u8>> {
    match v {
        Some(x) => Some(x@),
        None => None,
    }
}

/// The values of an observation as they stand in a file: the numbers by their
/// texts, and the loss-of-lock flag in place of the arc.
pub open spec fn stated(
    v: SignalValues<&[u8], &[u8]>,
    lost: bool,
    frq: Option<i8>,
) -> SignalValues<Seq<u8>, Seq<u8>> {
    SignalValues {
        frq,
        pr: number_text(v.pr),
        cp: number_text(v.cp),
        dop: number_text(v.dop),
        cn0: number_text(v.cn0),
        arc: 0,
        hc: v.hc,
        bt: v.bt,
        ll: lost,
    }
}

/// Whether there is something to write of an observation.
pub open spec fn has_content(v: SignalValues<&[u8], &[u8]>, lost: bool) -> bool {
    ||| v.pr is Some
    ||| v.cp is Some
    ||| v.dop is Some
    ||| v.cn0 is Some
    ||| lost
    ||| v.hc
    ||| v.bt
}

/// The fields of an observation by their codes.
proof fn lemma_fields_by_code(sig: SigId, v: SignalValues<&[u8], &[u8]>, lost: bool)
    ensures
        ({
            let fs = fields_of(sig, v, lost);
            let lli = lli_of(lost, v.hc, v.bt);
            &&& field_of(fs, obs_code(sig, TYPE_CODE)) == (match v.pr {
                Some(x) => Some(ObsField { val: Some(x), lli: 0u8 }),
                None => None,
            })
            &&& field_of(fs, obs_code(sig, TYPE_PHASE)) == (if v.cp is Some || lli != 0 {
                Some(ObsField { val: v.cp, lli })
            } else {
                None
            })
            &&& field_of(fs, obs_code(sig, TYPE_DOPPLER)) == (match v.dop {
                Some(x) => Some(ObsField { val: Some(x), lli: 0u8 }),
                None => None,
            })
            &&& field_of(fs, obs_code(sig, TYPE_SIGNAL_STRENGTH)) == (match v.cn0 {
                Some(x) => Some(ObsField { val: Some(x), lli: 0u8 }),
                None => None,
            })
        }),
{
    lemma_codes_apart(sig);
    let fs = fields_of(sig, v, lost);
    let lli = lli_of(lost, v.hc, v.bt);
    let a = obs_code(sig, TYPE_CODE);
    let b = obs_code(sig, TYPE_PHASE);
    let c = obs_code(sig, TYPE_DOPPLER);
    let d = obs_code(sig, TYPE_SIGNAL_STRENGTH);
    let nb: int = if v.pr is Some {
        1
    } else {
        0
    };
    let nc: int = nb + (if v.cp is Some || lli != 0 {
        1int
    } else {
        0
    });
    let nd: int = nc + (if v.dop is Some {
        1int
    } else {
        0
    });
    assert(fs.len() == nd + (if v.cn0 is Some {
        1int
    } else {
        0
    }));
    assert(v.pr is Some ==> fs[0].0 == a);
    assert(nc > nb ==> fs[nb].0 == b && fs[nb].1 == (ObsField { val: v.cp, lli }));
    assert(nd > nc ==> fs[nc].0 == c);
    assert(v.cn0 is Some ==> fs[nd].0 == d);
    lemma_found_code(fs, a);
    lemma_found_code(fs, b);
    lemma_found_code(fs, c);
    lemma_found_code(fs, d);
    if v.pr is Some {
        crate::rinexobs::lemma_field_index(fs, a, 0);
    }
    if nc > nb {
        crate::rinexobs::lemma_field_index(fs, b, nb);
    }
    if nd > nc {
        crate::rinexobs::lemma_field_index(fs, c, nc);
    }
    if v.cn0 is Some {
        crate::rinexobs::lemma_field_index(fs, d, nd);
    }
}

/// What a record that holds an observation says of its signal.
proof fn lemma_record_says(
    r: SatRecordView<&[u8]>,
    codes: Seq<ObsCode>,
    o: SignalObservation<&[u8], &[u8]>,
    lost: bool,
    frq: Option<i8>,
)
    requires
        holds(r, o, lost),
        codes_distinct(codes),
        codes_ok(codes),
        forall|typ: u8|
            #![trigger obs_code(o.sig, typ)]
            writes(o.v, lost, typ) ==> codes.contains(obs_code(o.sig, typ)),
    ensures
        cells(r.fields, codes, codes.len() as int, o.sig, frq) == stated(o.v, lost, frq),
        has_content(o.v, lost) <==> has_field(r.fields, codes, codes.len() as int, o.sig),
{
    let sig = o.sig;
    let n = codes.len() as int;
    lemma_cells(r.fields, codes, n, sig, frq);
    lemma_fields_by_code(sig, o.v, lost);
    lemma_codes_apart(sig);
    let lli = lli_of(lost, o.v.hc, o.v.bt);
    assert(lli == 0 <==> !lost && !o.v.hc && !o.v.bt);
    let ca = obs_code(sig, TYPE_CODE);
    let cb = obs_code(sig, TYPE_PHASE);
    let cc = obs_code(sig, TYPE_DOPPLER);
    let cd = obs_code(sig, TYPE_SIGNAL_STRENGTH);
    let fs = fields_of(sig, o.v, lost);
    assert(field_of(r.fields, ca) == field_of(fs, ca));
    assert(field_of(r.fields, cb) == field_of(fs, cb));
    assert(field_of(r.fields, cc) == field_of(fs, cc));
    assert(field_of(r.fields, cd) == field_of(fs, cd));
    lemma_listed_all(codes, ca);
    lemma_listed_all(codes, cb);
    lemma_listed_all(codes, cc);
    lemma_listed_all(codes, cd);
    assert(o.v.pr is Some ==> listed(codes, n, ca));
    assert(o.v.cp is Some || lli != 0 ==> listed(codes, n, cb));
    assert(o.v.dop is Some ==> listed(codes, n, cc));
    assert(o.v.cn0 is Some ==> listed(codes, n, cd));
    lemma_lli_round_trip(no_values::<Seq<u8>, Seq<u8>>(), lost, o.v.hc, o.v.bt);
    if has_content(o.v, lost) {
        let c = if o.v.pr is Some {
            ca
        } else if o.v.dop is Some {
            cc
        } else if o.v.cn0 is Some {
            cd
        } else {
            cb
        };
        assert(listed(codes, n, c));
        let k = choose|k: int| 0 <= k < n && #[trigger] codes[k] == c;
        assert(code_signal(codes[k]) == sig && field_of(r.fields, codes[k]) is Some);
    }
    if has_field(r.fields, codes, n, sig) {
        let k = choose|k: int|
            0 <= k < n && code_signal(#[trigger] codes[k]) == sig && field_of(r.fields, codes[k])
                is Some;
        lemma_code_of(codes[k], sig);
        assert(code_ok(codes[k]));
        assert(field_of(r.fields, codes[k]) == field_of(fs, codes[k]));
    }
}

proof fn lemma_listed_all(codes: Seq<ObsCode>, c: ObsCode)
    ensures
        listed(codes, codes.len() as int, c) <==> codes.contains(c),
{
    if codes.contains(c) {
        let k = choose|k: int| 0 <= k < codes.len() && codes[k] == c;
        assert(codes[k] == c);
    }
}

// ---- what the header lists ----

/// The place of a code among all codes.
spec fn place(c: ObsCode) -> int {
    ((c.0@[1] - 0x31) * 26 + (c.0@[2] - 0x41)) * 4 + type_rank(c.0@[0])
}

proof fn lemma_place(a: ObsCode, b: ObsCode)
    requires
        code_ok(a),
        code_ok(b),
        code_rank(a) < code_rank(b),
    ensures
        0 <= place(a) < place(b) < 936,
{
    let p = seq![a.0@[1], a.0@[2]];
    let q = seq![b.0@[1], b.0@[2]];
    assert(p[0] == a.0@[1] && p[1] == a.0@[2]);
    assert(q[0] == b.0@[1] && q[1] == b.0@[2]);
}

proof fn lemma_few_codes(codes: Seq<ObsCode>)
    requires
        codes_distinct(codes),
        codes_ok(codes),
    ensures
        codes.len() <= 936,
        forall|i: int| 0 <= i < codes.len() && codes.len() > 1 ==> place(#[trigger] codes[i]) >= i,
    decreases codes.len(),
{
    if codes.len() > 1 {
        let t = codes.drop_last();
        assert(codes_ok(t)) by {
            assert forall|i: int| 0 <= i < t.len() implies code_ok(#[trigger] t[i]) by {
                assert(t[i] == codes[i]);
            }
        }
        assert(codes_distinct(t)) by {
            assert forall|i: int, j: int| 0 <= i < j < t.len() implies code_rank(#[trigger] t[i])
                < code_rank(#[trigger] t[j]) by {
                assert(code_rank(codes[i]) < code_rank(codes[j]));
            }
        }
        lemma_few_codes(t);
        let n = codes.len() as int;
        assert(code_ok(codes[n - 2]) && code_ok(codes[n - 1]));
        assert(code_rank(codes[n - 2]) < code_rank(codes[n - 1]));
        lemma_place(codes[n - 2], codes[n - 1]);
        assert(t[n - 2] == codes[n - 2]);
        assert(n == 2 ==> place(codes[0]) >= 0);
        assert forall|i: int| 0 <= i < codes.len() implies place(#[trigger] codes[i]) >= i by {
            if i < n - 1 {
                assert(t[i] == codes[i]);
            }
        }
    }
}

/// The codes that are listed for observations can be read again, and each that is
/// needed is there.
proof fn lemma_lists(s: Seq<SignalObservation<&[u8], &[u8]>>, codes: Seq<Seq<ObsCode>>)
    requires
        stream_ok(s),
        codes_listed(s, codes),
    ensures
        lists_ok(codes),
        forall|i: int, typ: u8|
            #![trigger obs_code(s[i].sig, typ)]
            0 <= i < s.len() && writes(s[i].v, slipped(s.take(i + 1)), typ) ==> codes_for(
                codes,
                s[i].sat,
            ).contains(obs_code(s[i].sig, typ)),
{
    assert forall|k: int| 0 <= k < 7 implies codes_ok(#[trigger] codes[k]) && codes[k].len()
        <= 999 by {
        assert forall|j: int| 0 <= j < codes[k].len() implies code_ok(#[trigger] codes[k][j]) by {
            let c = codes[k][j];
            assert(codes[k].contains(c));
            assert(code_used(s, k, c));
            let i = choose|i: int|
                {
                    &&& 0 <= i < s.len()
                    &&& system_rank((#[trigger] s[i]).sat.0@[0]) == k
                    &&& code_signal(c) == s[i].sig
                    &&& writes(s[i].v, slipped(s.take(i + 1)), c.0@[0])
                };
            assert(observation_ok(s[i]));
            assert(s[i].sig.0@ =~= seq![c.0@[1], c.0@[2]]);
        }
        lemma_few_codes(codes[k]);
    }
    assert forall|i: int, typ: u8|
        #![trigger obs_code(s[i].sig, typ)]
        0 <= i < s.len() && writes(s[i].v, slipped(s.take(i + 1)), typ) implies codes_for(
        codes,
        s[i].sat,
    ).contains(obs_code(s[i].sig, typ)) by {
        assert(observation_ok(s[i]));
        let k = system_rank(s[i].sat.0@[0]);
        let c = obs_code(s[i].sig, typ);
        lemma_codes_apart(s[i].sig);
        assert(c.0@[0] == typ && code_signal(c) == s[i].sig);
        assert(0 <= k < 7);
        assert(code_used(s, k, c));
        assert(codes[k].contains(c));
    }
}

/// Whether the channels of the GLONASS satellites have one digit with a sign, or
/// two digits.
pub open spec fn channels_fit(s: Seq<SignalObservation<&[u8], &[u8]>>) -> bool {
    forall|i: int|
        0 <= i < s.len() && (#[trigger] s[i]).sat.0@[0] == 0x52 ==> (s[i].v.frq matches Some(n)
            ==> -10 < n < 100)
}

proof fn lemma_last_frq(s: Seq<SignalObservation<&[u8], &[u8]>>, sat: SatId)
    ensures
        last_frq(s, sat) matches Some(n) ==> exists|i: int|
            0 <= i < s.len() && (#[trigger] s[i]).sat == sat && s[i].v.frq == Some(n),
    decreases s.len(),
{
    if s.len() > 0 {
        let t = s.drop_last();
        if s.last().sat == sat && s.last().v.frq is Some {
            assert(s[s.len() - 1] == s.last());
        } else {
            lemma_last_frq(t, sat);
            if last_frq(t, sat) is Some {
                let n = last_frq(t, sat)->0;
                let i = choose|i: int|
                    0 <= i < t.len() && (#[trigger] t[i]).sat == sat && t[i].v.frq == Some(n);
                assert(s[i] == t[i]);
            }
        }
    }
}

proof fn lemma_glonass_sorted(l: Seq<(SatId, i8)>)
    requires
        frq_sorted(l),
    ensures
        frq_sorted(glonass_only(l)),
        forall|i: int|
            0 <= i < glonass_only(l).len() ==> (#[trigger] glonass_only(l)[i]).0.0@[0] == 0x52
                && l.contains(glonass_only(l)[i]),
        forall|e: (SatId, i8)| #[trigger]
            l.contains(e) && e.0.0@[0] == 0x52 ==> glonass_only(l).contains(e),
    decreases l.len(),
{
    reveal(Seq::filter);
    let f = |e: (SatId, i8)| e.0.0@[0] == 0x52;
    let g = glonass_only(l);
    if l.len() > 0 {
        let t = l.drop_last();
        assert(frq_sorted(t)) by {
            assert forall|i: int, j: int| 0 <= i < j < t.len() implies sat_number(
                (#[trigger] t[i]).0,
            ) < sat_number((#[trigger] t[j]).0) by {
                assert(sat_number(l[i].0) < sat_number(l[j].0));
            }
        }
        lemma_glonass_sorted(t);
        let h = glonass_only(t);
        let last = l.last();
        assert(g == (if f(last) {
            h.push(last)
        } else {
            h
        }));
        assert forall|i: int| 0 <= i < g.len() implies (#[trigger] g[i]).0.0@[0] == 0x52
            && l.contains(g[i]) by {
            if i < h.len() {
                assert(g[i] == h[i]);
                assert(t.contains(h[i]));
                let k = choose|k: int| 0 <= k < t.len() && t[k] == h[i];
                assert(l[k] == g[i]);
            } else {
                assert(l[l.len() - 1] == g[i]);
            }
        }
        assert forall|i: int, j: int| 0 <= i < j < g.len() implies sat_number((#[trigger] g[i]).0)
            < sat_number((#[trigger] g[j]).0) by {
            if j < h.len() {
                assert(g[i] == h[i] && g[j] == h[j]);
            } else {
                assert(g[i] == h[i]);
                assert(t.contains(h[i]));
                let k = choose|k: int| 0 <= k < t.len() && t[k] == h[i];
                assert(sat_number(l[k].0) < sat_number(l[l.len() - 1].0));
            }
        }
        assert forall|e: (SatId, i8)| #[trigger] l.contains(e) && e.0.0@[0] == 0x52 implies g.contains(
            e,
        ) by {
            let k = choose|k: int| 0 <= k < l.len() && l[k] == e;
            if k < l.len() - 1 {
                assert(t[k] == e);
                assert(t.contains(e));
                assert(h.contains(e));
                let i = choose|i: int| 0 <= i < h.len() && h[i] == e;
                assert(g[i] == e);
            } else {
                assert(g[g.len() - 1] == e);
            }
        }
    }
}

proof fn lemma_few_channels(l: Seq<(SatId, i8)>)
    requires
        frq_sorted(l),
        forall|i: int|
            0 <= i < l.len() ==> (#[trigger] l[i]).0.0@[0] == 0x52 && sat_valid(l[i].0.0@),
    ensures
        l.len() <= 100,
        forall|i: int|
            0 <= i < l.len() ==> ((#[trigger] l[i]).0.0@[1] - 0x30) * 10 + (l[i].0.0@[2] - 0x30)
                >= i,
    decreases l.len(),
{
    if l.len() > 0 {
        let t = l.drop_last();
        assert forall|i: int| 0 <= i < t.len() implies (#[trigger] t[i]).0.0@[0] == 0x52
            && sat_valid(t[i].0.0@) by {
            assert(t[i] == l[i]);
        }
        assert forall|i: int, j: int| 0 <= i < j < t.len() implies sat_number((#[trigger] t[i]).0)
            < sat_number((#[trigger] t[j]).0) by {
            assert(sat_number(l[i].0) < sat_number(l[j].0));
        }
        lemma_few_channels(t);
        let n = l.len() as int;
        let b = l[n - 1];
        assert(b.0.0@[0] == 0x52);
        if n > 1 {
            let a = l[n - 2];
            assert(a.0.0@[0] == 0x52);
            assert(t[n - 2] == a);
            assert(sat_number(a.0) < sat_number(b.0));
        }
        assert forall|i: int| 0 <= i < l.len() implies ((#[trigger] l[i]).0.0@[1] - 0x30) * 10 + (
        l[i].0.0@[2] - 0x30) >= i by {
            if i < n - 1 {
                assert(t[i] == l[i]);
            }
        }
    }
}

proof fn lemma_channels_map(l: Seq<(SatId, i8)>, sat: SatId)
    requires
        frq_sorted(l),
    ensures
        forall|n: i8|
            #![trigger l.contains((sat, n))]
            fx_value(channels_in(l, Map::empty()), sat_number(sat)) == Some(n) <==> l.contains(
                (sat, n),
            ),
    decreases l.len(),
{
    if l.len() > 0 {
        let t = l.drop_last();
        assert forall|i: int, j: int| 0 <= i < j < t.len() implies sat_number((#[trigger] t[i]).0)
            < sat_number((#[trigger] t[j]).0) by {
            assert(sat_number(l[i].0) < sat_number(l[j].0));
        }
        lemma_channels_map(t, sat);
        let last = l.last();
        assert forall|n: i8|
            #![trigger l.contains((sat, n))]
            fx_value(channels_in(l, Map::empty()), sat_number(sat)) == Some(n) <==> l.contains(
            (sat, n),
        ) by {
            if l.contains((sat, n)) {
                let k = choose|k: int| 0 <= k < l.len() && l[k] == (sat, n);
                if k < l.len() - 1 {
                    assert(t[k] == (sat, n));
                    assert(t.contains((sat, n)));
                    assert(sat_number(l[k].0) < sat_number(l[l.len() - 1].0));
                }
            }
            if sat_number(sat) == sat_number(last.0) {
                lemma_sat_number_unique(sat, last.0);
                if last.1 == n {
                    assert(l[l.len() - 1] == (sat, n));
                }
            } else if t.contains((sat, n)) {
                let k = choose|k: int| 0 <= k < t.len() && t[k] == (sat, n);
                assert(l[k] == (sat, n));
            }
        }
    }
}

/// The frequency channel that a file gives for a satellite: the last that was
/// given for a GLONASS satellite.
pub open spec fn channel(s: Seq<SignalObservation<&[u8], &[u8]>>, sat: SatId) -> Option<i8> {
    if sat.0@[0] == 0x52 {
        last_frq(s, sat)
    } else {
        None
    }
}

/// The channels that are listed for observations can be read again.
proof fn lemma_channels(s: Seq<SignalObservation<&[u8], &[u8]>>, frq: Seq<(SatId, i8)>)
    requires
        stream_ok(s),
        channels_fit(s),
        frq_listed(s, frq),
    ensures
        channels_ok(glonass_only(frq)),
        glonass_only(frq).len() <= 999,
        forall|sat: SatId|
            #![trigger sat_number(sat)]
            fx_value(channels_in(glonass_only(frq), Map::empty()), sat_number(sat)) == channel(
                s,
                sat,
            ),
{
    let g = glonass_only(frq);
    lemma_glonass_sorted(frq);
    assert forall|i: int| 0 <= i < g.len() implies channel_ok(#[trigger] g[i]) by {
        let e = g[i];
        assert(frq.contains(e));
        assert(frq.contains((e.0, e.1)));
        lemma_last_frq(s, e.0);
        let k = choose|k: int|
            0 <= k < s.len() && (#[trigger] s[k]).sat == e.0 && s[k].v.frq == Some(e.1);
        assert(observation_ok(s[k]));
    }
    assert forall|i: int| 0 <= i < g.len() implies (#[trigger] g[i]).0.0@[0] == 0x52 && sat_valid(
        g[i].0.0@,
    ) by {
        assert(channel_ok(g[i]));
    }
    lemma_few_channels(g);
    assert forall|sat: SatId|
        #![trigger sat_number(sat)]
        fx_value(channels_in(g, Map::empty()), sat_number(sat)) == channel(s, sat) by {
        lemma_channels_map(g, sat);
        let got = fx_value(channels_in(g, Map::<u64, i8>::empty()), sat_number(sat));
        if got is Some {
            let n = got->0;
            assert(g.contains((sat, n)));
            let i = choose|i: int| 0 <= i < g.len() && g[i] == (sat, n);
            assert(g[i].0.0@[0] == 0x52);
            assert(frq.contains(g[i]));
            assert(frq.contains((sat, n)));
        }
        if channel(s, sat) is Some {
            let n = channel(s, sat)->0;
            assert(frq.contains((sat, n)));
            assert(g.contains((sat, n)));
        }
    }
}

// ---- how many satellites there can be ----

/// The place of a satellite among all satellites.
spec fn sat_place(sat: SatId) -> int {
    system_rank(sat.0@[0]) * 100 + (sat.0@[1] - 0x30) * 10 + (sat.0@[2] - 0x30)
}

/// An epoch has at most as many records as there are satellites.
proof fn lemma_few_satellites(sats: Seq<SatRecordView<&[u8]>>)
    requires
        records_ok(sats),
    ensures
        sats.len() <= 999,
{
    let p = Seq::new(sats.len(), |i: int| sat_place(sats[i].sat));
    assert(p.no_duplicates()) by {
        assert forall|i: int, j: int| 0 <= i < j < p.len() implies p[i] != p[j] by {
            let a = sats[i].sat;
            let b = sats[j].sat;
            assert(a != b);
            assert(sat_valid(sats[i].sat.0@) && sat_valid(sats[j].sat.0@));
            if sat_place(a) == sat_place(b) {
                assert(a.0@[0] == b.0@[0] && a.0@[1] == b.0@[1] && a.0@[2] == b.0@[2]);
                assert(a.0 =~= b.0);
            }
        }
    }
    p.unique_seq_to_set();
    let all = vstd::set_lib::set_int_range(0, 700);
    vstd::set_lib::lemma_int_range(0, 700);
    assert(p.to_set().subset_of(all)) by {
        assert forall|x: int| p.to_set().contains(x) implies all.contains(x) by {
            let i = choose|i: int| 0 <= i < p.len() && p[i] == x;
            assert(sat_valid(sats[i].sat.0@));
        }
    }
    vstd::set_lib::lemma_len_subset(p.to_set(), all);
}

// ---- observations ----

/// Whether an observation with flags is what a file says of the one at `i`.
pub open spec fn said_of(
    d: Seq<u8>,
    o: ReadObservation,
    s: Seq<SignalObservation<&[u8], &[u8]>>,
    i: int,
) -> bool {
    &&& o.t == s[i].t
    &&& o.key() == s[i].key()
    &&& values_text(d, o.v) == stated(s[i].v, slipped(s.take(i + 1)), channel(s, s[i].sat))
}

/// Whether there is something to write of the observation at `i`.
pub open spec fn is_shown(s: Seq<SignalObservation<&[u8], &[u8]>>, i: int) -> bool {
    0 <= i < s.len() && has_content(s[i].v, slipped(s.take(i + 1)))
}

/// Whether a header lists what observations need.
spec fn lists(s: Seq<SignalObservation<&[u8], &[u8]>>, h: ObsHeaderView) -> bool {
    &&& codes_listed(s, h.codes)
    &&& forall|sat: SatId|
        #![trigger sat_number(sat)]
        fx_value(h.frq, sat_number(sat)) == channel(s, sat)
}

/// The record that holds an observation says what the file says of it.
proof fn lemma_record_of(
    s: Seq<SignalObservation<&[u8], &[u8]>>,
    h: ObsHeaderView,
    r: SatRecordView<&[u8]>,
    i: int,
)
    requires
        stream_ok(s),
        lists(s, h),
        0 <= i < s.len(),
        holds(r, s[i], slipped(s.take(i + 1))),
    ensures
        ({
            let codes = codes_for(h.codes, r.sat);
            let lost = slipped(s.take(i + 1));
            let frq = fx_value(h.frq, sat_number(r.sat));
            &&& cells(r.fields, codes, codes.len() as int, s[i].sig, frq) == stated(
                s[i].v,
                lost,
                channel(s, s[i].sat),
            )
            &&& has_content(s[i].v, lost) <==> tells(r, s[i].sig, h)
        }),
{
    lemma_lists(s, h.codes);
    assert(observation_ok(s[i]));
    let k = system_rank(r.sat.0@[0]);
    assert(0 <= k < 7);
    let codes = codes_for(h.codes, r.sat);
    assert(codes == h.codes[k]);
    assert(codes_ok(h.codes[k]) && codes_distinct(h.codes[k]));
    let lost = slipped(s.take(i + 1));
    assert forall|typ: u8|
        #![trigger obs_code(s[i].sig, typ)]
        writes(s[i].v, lost, typ) implies codes.contains(obs_code(s[i].sig, typ)) by {}
    lemma_record_says(r, codes, s[i], lost, fx_value(h.frq, sat_number(r.sat)));
}

/// The record of a time and a satellite holds the observations of that time and
/// satellite.
proof fn lemma_same_record(
    s: Seq<SignalObservation<&[u8], &[u8]>>,
    es: Seq<EpochView<&[u8]>>,
    e: int,
    r: int,
    i: int,
)
    requires
        stream_ok(s),
        grouped(es, s, s.len() as int),
        0 <= e < es.len(),
        0 <= r < es[e].sats.len(),
        0 <= i < s.len(),
        s[i].t == es[e].t,
        s[i].sat == es[e].sats[r].sat,
    ensures
        holds(es[e].sats[r], s[i], slipped(s.take(i + 1))),
{
    let lost = slipped(s.take(i + 1));
    assert(epochs_hold(es, s[i], lost));
    let x = choose|x: int| 0 <= x < es.len() && epoch_holds(#[trigger] es[x], s[i], lost);
    if x < e {
        assert(es[x].t.0 < es[e].t.0);
    } else if e < x {
        assert(es[e].t.0 < es[x].t.0);
    }
    let y = choose|y: int| 0 <= y < es[x].sats.len() && holds(#[trigger] es[x].sats[y], s[i], lost);
    assert(epoch_from(es[e], s, s.len() as int));
    if y < r {
        assert(es[e].sats[y].sat != es[e].sats[r].sat);
    } else if r < y {
        assert(es[e].sats[r].sat != es[e].sats[y].sat);
    }
}

/// An observation that is read is what the file says of one that was written.
proof fn lemma_read_is_written(
    d: Seq<u8>,
    o: ReadObservation,
    s: Seq<SignalObservation<&[u8], &[u8]>>,
    es: Seq<EpochView<&[u8]>>,
    h: ObsHeaderView,
) -> (i: int)
    requires
        stream_ok(s),
        grouped(es, s, s.len() as int),
        lists(s, h),
        of_epochs(d, o, es, h),
    ensures
        is_shown(s, i),
        said_of(d, o, s, i),
{
    let e = choose|e: int|
        0 <= e < es.len() && of_records(d, o, (#[trigger] es[e]).sats, es[e].t, h);
    let r = choose|r: int|
        0 <= r < es[e].sats.len() && of_record(d, o, #[trigger] es[e].sats[r], es[e].t, h);
    let rec = es[e].sats[r];
    let codes = codes_for(h.codes, rec.sat);
    let k = choose|k: int|
        0 <= k < codes.len() && code_signal(#[trigger] codes[k]) == o.sig && field_of(
            rec.fields,
            codes[k],
        ) is Some;
    assert(epoch_from(es[e], s, s.len() as int));
    assert(record_from(rec, s, s.len() as int, es[e].t));
    assert(given(s, s.len() as int, es[e].t, rec.sat, o.sig));
    let i = choose|i: int|
        0 <= i < s.len() && (#[trigger] s[i]).t == es[e].t && s[i].sat == rec.sat && s[i].sig
            == o.sig;
    lemma_same_record(s, es, e, r, i);
    lemma_record_of(s, h, rec, i);
    i
}

/// An observation with something to write is read.
proof fn lemma_written_is_read(
    d: Seq<u8>,
    os: Seq<ReadObservation>,
    s: Seq<SignalObservation<&[u8], &[u8]>>,
    es: Seq<EpochView<&[u8]>>,
    h: ObsHeaderView,
    i: int,
) -> (j: int)
    requires
        stream_ok(s),
        grouped(es, s, s.len() as int),
        lists(s, h),
        epochs_read(d, os, es, h),
        is_shown(s, i),
    ensures
        0 <= j < os.len(),
        said_of(d, os[j], s, i),
{
    let lost = slipped(s.take(i + 1));
    assert(epochs_hold(es, s[i], lost));
    let e = choose|e: int| 0 <= e < es.len() && epoch_holds(#[trigger] es[e], s[i], lost);
    let r = choose|r: int| 0 <= r < es[e].sats.len() && holds(#[trigger] es[e].sats[r], s[i], lost);
    lemma_record_of(s, h, es[e].sats[r], i);
    assert(tells(es[e].sats[r], s[i].sig, h));
    assert(observed_at(os, es[e].t, es[e].sats[r].sat, s[i].sig));
    let j = choose|j: int|
        0 <= j < os.len() && (#[trigger] os[j]).t == es[e].t && os[j].sat == es[e].sats[r].sat
            && os[j].sig == s[i].sig;
    assert(of_epochs(d, os[j], es, h));
    let k = lemma_read_is_written(d, os[j], s, es, h);
    if k < i {
        assert(s[k].key() != s[i].key());
    } else if i < k {
        assert(s[i].key() != s[k].key());
    }
    j
}

// ---- arcs ----

/// Observations with the loss-of-lock flags that a writer gives them.
pub open spec fn flagged<F, G>(s: Seq<SignalObservation<F, G>>) -> Seq<SignalObservation<F, G>> {
    Seq::new(
        s.len(),
        |i: int|
            SignalObservation {
                v: SignalValues { ll: slipped(s.take(i + 1)), ..s[i].v },
                ..s[i]
            },
    )
}

/// How many losses of lock of its signal a writer has given up to and with the
/// observation at `i`.
pub open spec fn slips<F, G>(s: Seq<SignalObservation<F, G>>, i: int) -> u32 {
    arc_after(flagged(s).take(i + 1), s[i].key())
}

/// The times at which a signal has the flag.
spec fn slip_times<F, G>(os: Seq<SignalObservation<F, G>>, k: SignalKey) -> Set<i64>
    decreases os.len(),
{
    if os.len() == 0 {
        Set::empty()
    } else {
        let t = slip_times(os.drop_last(), k);
        if os.last().key() == k && os.last().v.ll {
            t.insert(os.last().t.0)
        } else {
            t
        }
    }
}

/// Whether a signal has the flag at a time.
spec fn slips_at<F, G>(os: Seq<SignalObservation<F, G>>, k: SignalKey, t: i64) -> bool {
    exists|i: int| 0 <= i < os.len() && (#[trigger] os[i]).key() == k && os[i].v.ll && os[i].t.0 == t
}

/// Whether the observations of a signal are of times that grow.
spec fn times_grow<F, G>(os: Seq<SignalObservation<F, G>>) -> bool {
    forall|i: int, j: int|
        0 <= i < j < os.len() && (#[trigger] os[i]).key() == (#[trigger] os[j]).key() ==> os[i].t.0
            < os[j].t.0
}

/// A counter counts the times at which its signal has the flag.
proof fn lemma_slip_times<F, G>(os: Seq<SignalObservation<F, G>>, k: SignalKey)
    requires
        times_grow(os),
    ensures
        slip_times(os, k).finite(),
        arc_after(os, k) == (if slip_times(os, k).len() < u32::MAX {
            slip_times(os, k).len() as int
        } else {
            u32::MAX as int
        }),
        forall|t: i64| #[trigger] slip_times(os, k).contains(t) <==> slips_at(os, k, t),
    decreases os.len(),
{
    if os.len() > 0 {
        let p = os.drop_last();
        let last = os.last();
        assert(times_grow(p)) by {
            assert forall|i: int, j: int|
                0 <= i < j < p.len() && (#[trigger] p[i]).key() == (
                #[trigger] p[j]).key() implies p[i].t.0 < p[j].t.0 by {
                assert(os[i].t.0 < os[j].t.0);
            }
        }
        lemma_slip_times(p, k);
        let before = slip_times(p, k);
        if last.key() == k && last.v.ll {
            assert(!before.contains(last.t.0)) by {
                if slips_at(p, k, last.t.0) {
                    let i = choose|i: int|
                        0 <= i < p.len() && (#[trigger] p[i]).key() == k && p[i].v.ll && p[i].t.0
                            == last.t.0;
                    assert(os[i].key() == os[os.len() - 1].key());
                    assert(os[i].t.0 < os[os.len() - 1].t.0);
                }
            }
        }
        assert forall|t: i64| #[trigger] slip_times(os, k).contains(t) <==> slips_at(os, k, t) by {
            if slips_at(p, k, t) {
                let i = choose|i: int|
                    0 <= i < p.len() && (#[trigger] p[i]).key() == k && p[i].v.ll && p[i].t.0 == t;
                assert(os[i] == p[i]);
            }
            if slips_at(os, k, t) {
                let i = choose|i: int|
                    0 <= i < os.len() && (#[trigger] os[i]).key() == k && os[i].v.ll && os[i].t.0
                        == t;
                if i < p.len() {
                    assert(p[i] == os[i]);
                }
            }
            if last.key() == k && last.v.ll && last.t.0 == t {
                assert(os[os.len() - 1].key() == k);
            }
            assert(before.contains(t) <==> slips_at(p, k, t));
        }
    } else {
        assert forall|t: i64| #[trigger] slip_times(os, k).contains(t) <==> slips_at(os, k, t) by {}
    }
}

/// Whether the observation at `j` is what a file says of one that was written.
spec fn has_source(
    d: Seq<u8>,
    os: Seq<ReadObservation>,
    s: Seq<SignalObservation<&[u8], &[u8]>>,
    j: int,
) -> bool {
    0 <= j < os.len() ==> exists|i: int| is_shown(s, i) && #[trigger] said_of(d, os[j], s, i)
}

/// Whether the observation at `i` is said, where there is something to write of
/// it.
spec fn is_said(
    d: Seq<u8>,
    os: Seq<ReadObservation>,
    s: Seq<SignalObservation<&[u8], &[u8]>>,
    i: int,
) -> bool {
    is_shown(s, i) ==> exists|j: int| 0 <= j < os.len() && #[trigger] said_of(d, os[j], s, i)
}

/// Whether observations with flags are what a file says of those that were
/// written, each once, in the order of time.
spec fn said(
    d: Seq<u8>,
    os: Seq<ReadObservation>,
    s: Seq<SignalObservation<&[u8], &[u8]>>,
) -> bool {
    &&& forall|j: int| #[trigger] has_source(d, os, s, j)
    &&& forall|i: int| #[trigger] is_said(d, os, s, i)
    &&& forall|i: int, j: int|
        0 <= i < j < os.len() ==> {
            &&& (#[trigger] os[i]).t.0 <= (#[trigger] os[j]).t.0
            &&& os[i].t == os[j].t ==> os[i].key() != os[j].key()
        }
}

/// The losses of lock that are read up to an observation are those that were
/// written up to it.
proof fn lemma_slips(
    d: Seq<u8>,
    os: Seq<ReadObservation>,
    s: Seq<SignalObservation<&[u8], &[u8]>>,
    i: int,
    j: int,
)
    requires
        stream_ok(s),
        said(d, os, s),
        0 <= j < os.len(),
        0 <= i < s.len(),
        said_of(d, os[j], s, i),
    ensures
        arc_after(os.take(j + 1), os[j].key()) == slips(s, i),
{
    let k = s[i].key();
    let a = os.take(j + 1);
    let b = flagged(s).take(i + 1);
    assert(times_grow(a)) by {
        assert forall|x: int, y: int|
            0 <= x < y < a.len() && (#[trigger] a[x]).key() == (#[trigger] a[y]).key() implies a[x].t.0
            < a[y].t.0 by {
            assert(os[x].t.0 <= os[y].t.0);
            assert(os[x].t == os[y].t ==> os[x].key() != os[y].key());
        }
    }
    assert(times_grow(b)) by {
        assert forall|x: int, y: int|
            0 <= x < y < b.len() && (#[trigger] b[x]).key() == (#[trigger] b[y]).key() implies b[x].t.0
            < b[y].t.0 by {
            assert(s[x].t.0 <= s[y].t.0);
            assert(s[x].t == s[y].t ==> s[x].key() != s[y].key());
        }
    }
    lemma_slip_times(a, k);
    lemma_slip_times(b, k);
    assert forall|t: i64| slips_at(a, k, t) == slips_at(b, k, t) by {
        if slips_at(a, k, t) {
            let x = choose|x: int|
                0 <= x < a.len() && (#[trigger] a[x]).key() == k && a[x].v.ll && a[x].t.0 == t;
            assert(a[x] == os[x]);
            assert(has_source(d, os, s, x));
            let y = choose|y: int| is_shown(s, y) && #[trigger] said_of(d, os[x], s, y);
            assert(x < j ==> os[x].t.0 <= os[j].t.0);
            if y > i {
                assert(s[i].t.0 <= s[y].t.0);
                assert(s[i].t == s[y].t);
                assert(s[i].key() != s[y].key());
            }
            assert(b[y].key() == k && b[y].v.ll && b[y].t.0 == t);
        }
        if slips_at(b, k, t) {
            let y = choose|y: int|
                0 <= y < b.len() && (#[trigger] b[y]).key() == k && b[y].v.ll && b[y].t.0 == t;
            assert(slipped(s.take(y + 1)));
            assert(is_shown(s, y));
            assert(is_said(d, os, s, y));
            let x = choose|x: int| 0 <= x < os.len() && #[trigger] said_of(d, os[x], s, y);
            assert(y < i ==> s[y].t.0 <= s[i].t.0);
            if x > j {
                assert(os[j].t.0 <= os[x].t.0);
                assert(os[j].t == os[x].t);
                assert(os[j].key() != os[x].key());
            }
            assert(a[x] == os[x]);
            assert(a[x].key() == k && a[x].v.ll && a[x].t.0 == t);
        }
    }
    assert(slip_times(a, k) =~= slip_times(b, k));
}

// ---- the laws ----

/// Whether an observation that is read gives back the one at `i`: its time, its
/// satellite and signal, the texts of its numbers, its half-cycle and BOC bits,
/// and as many losses of lock as the writer reported; the channel is the one last
/// given for the satellite.
pub open spec fn gives_back(
    d: Seq<u8>,
    o: ReadObservation,
    s: Seq<SignalObservation<&[u8], &[u8]>>,
    i: int,
) -> bool {
    &&& o.t == s[i].t
    &&& o.key() == s[i].key()
    &&& values_text(d, o.v) == (SignalValues {
        arc: slips(s, i),
        ..stated(s[i].v, false, channel(s, s[i].sat))
    })
}

/// Whether the observation at `j` gives back one that there was something to
/// write of.
pub open spec fn comes_from(
    d: Seq<u8>,
    os: Seq<ReadObservation>,
    s: Seq<SignalObservation<&[u8], &[u8]>>,
    j: int,
) -> bool {
    0 <= j < os.len() ==> exists|i: int| is_shown(s, i) && #[trigger] gives_back(d, os[j], s, i)
}

/// Whether the observation at `i` is given back, where there was something to
/// write of it.
pub open spec fn is_given_back(
    d: Seq<u8>,
    os: Seq<ReadObservation>,
    s: Seq<SignalObservation<&[u8], &[u8]>>,
    i: int,
) -> bool {
    is_shown(s, i) ==> exists|j: int| 0 <= j < os.len() && #[trigger] gives_back(d, os[j], s, i)
}

/// Whether observations that are read give back those that were written: each
/// that there was something to write of, once, and no other, in the order of
/// time.
pub open spec fn give_back(
    d: Seq<u8>,
    os: Seq<ReadObservation>,
    s: Seq<SignalObservation<&[u8], &[u8]>>,
) -> bool {
    &&& forall|j: int| #[trigger] comes_from(d, os, s, j)
    &&& forall|i: int| #[trigger] is_given_back(d, os, s, i)
    &&& forall|i: int, j: int|
        0 <= i < j < os.len() ==> {
            &&& (#[trigger] os[i]).t.0 <= (#[trigger] os[j]).t.0
            &&& os[i].t == os[j].t ==> os[i].key() != os[j].key()
        }
}

/// Reading a file that was written gives back what it was written from: the
/// observations, and the facts of the header as far as its columns keep them. It
/// is so for observations of valid satellites and signals, with numbers of at
/// most fourteen characters, no two of one time and signal; GLONASS channels of
/// at most two characters; and header texts of printing ASCII characters. Such a file
/// is ASCII, so that its text is the file itself.
pub proof fn lemma_file_round_trip(
    m: MetadataView<&[u8]>,
    s: Seq<SignalObservation<&[u8], &[u8]>>,
    out: Seq<u8>,
)
    requires
        s.len() > 0,
        stream_ok(s),
        channels_fit(s),
        header_ok(m),
        written(m, s, out),
        out.len() <= usize::MAX,
    ensures
        file_contents(out) matches Ok(r) && facts_read(out, r.0, m) && give_back(out, r.1, s),
        valid_utf8(out),
{
    let (codes, frq) = choose|codes: Seq<Seq<ObsCode>>, frq: Seq<(SatId, i8)>|
        #![trigger codes_listed(s, codes), frq_listed(s, frq)]
        {
            &&& codes_listed(s, codes)
            &&& frq_listed(s, frq)
            &&& out == file_text(m, codes, frq, s)
        };
    lemma_lists(s, codes);
    lemma_channels(s, frq);
    lemma_epochs_written(s);
    assert(observation_ok(s[0]) && observation_ok(s[s.len() - 1]));
    lemma_header_ascii(m, codes, frq, s.first().t, s.last().t);
    lemma_epochs_ascii(epochs_of(s), codes);
    lemma_ascii_file(
        whole_header(m, codes, frq, s.first().t, s.last().t),
        epochs_text(epochs_of(s), codes),
    );
    let (h, os) = lemma_file_read(m, s, codes, frq, out);
    lemma_said(out, os, s, epochs_of(s), h);
    lemma_given_back(out, os, s);
}

proof fn lemma_ascii_file(a: Seq<u8>, b: Seq<u8>)
    requires
        is_ascii(a),
        is_ascii(b),
    ensures
        valid_utf8(a + b),
{
    lemma_join(a, b);
    lemma_ascii_valid(a + b);
}

/// A file is read as its header and its epochs say.
proof fn lemma_file_read(
    m: MetadataView<&[u8]>,
    s: Seq<SignalObservation<&[u8], &[u8]>>,
    codes: Seq<Seq<ObsCode>>,
    frq: Seq<(SatId, i8)>,
    out: Seq<u8>,
) -> (r: (ObsHeaderView, Seq<ReadObservation>))
    requires
        out == file_text(m, codes, frq, s),
        out.len() <= usize::MAX,
        header_ok(m),
        lists_ok(codes),
        channels_ok(glonass_only(frq)),
        glonass_only(frq).len() <= 999,
        s.first().t.in_range() && s.last().t.in_range(),
        epochs_ok(epochs_of(s)),
    ensures
        file_contents(out) == Ok::<(MetadataView<Reading>, Seq<ReadObservation>), Seq<char>>(
            (r.0.meta, accumulated(r.1)),
        ),
        facts_read(out, r.0.meta, m),
        epochs_read(out, r.1, epochs_of(s), r.0),
        r.0.codes == codes,
        r.0.frq == channels_in(glonass_only(frq), Map::empty()),
{
    let es = epochs_of(s);
    let first = s.first().t;
    let last = s.last().t;
    let head = whole_header(m, codes, frq, first, last);
    let tail = epochs_text(es, codes);
    let h = lemma_header_read(out, m, codes, frq, first, last, tail);
    lemma_skip_head(head, tail);
    let os = lemma_epochs_read(out, head.len() as int, es, h, Seq::empty());
    assert(Seq::<ReadObservation>::empty() + os =~= os);
    (h, os)
}

proof fn lemma_skip_head(a: Seq<u8>, b: Seq<u8>)
    ensures
        (a + b).skip(a.len() as int) == b,
{
    assert((a + b).skip(a.len() as int) =~= b);
}

/// The epochs of observations can be read again.
proof fn lemma_epochs_written(s: Seq<SignalObservation<&[u8], &[u8]>>)
    requires
        stream_ok(s),
    ensures
        grouped(epochs_of(s), s, s.len() as int),
        epochs_ok(epochs_of(s)),
{
    let es = epochs_of(s);
    lemma_grouped(s, s.len() as int);
    assert(s.take(s.len() as int) =~= s);
    assert forall|e: int| 0 <= e < es.len() implies epoch_ok(#[trigger] es[e]) by {
        assert(epoch_from(es[e], s, s.len() as int));
        lemma_few_satellites(es[e].sats);
    }
}

/// What is read from the epochs of a file is what the file says of the
/// observations.
proof fn lemma_said(
    d: Seq<u8>,
    os: Seq<ReadObservation>,
    s: Seq<SignalObservation<&[u8], &[u8]>>,
    es: Seq<EpochView<&[u8]>>,
    h: ObsHeaderView,
)
    requires
        stream_ok(s),
        grouped(es, s, s.len() as int),
        lists(s, h),
        epochs_read(d, os, es, h),
    ensures
        said(d, os, s),
{
    assert forall|j: int| #[trigger] has_source(d, os, s, j) by {
        if 0 <= j < os.len() {
            assert(of_epochs(d, os[j], es, h));
            let i = lemma_read_is_written(d, os[j], s, es, h);
            assert(is_shown(s, i) && said_of(d, os[j], s, i));
        }
    }
    assert forall|i: int| #[trigger] is_said(d, os, s, i) by {
        if is_shown(s, i) {
            let j = lemma_written_is_read(d, os, s, es, h, i);
            assert(said_of(d, os[j], s, i));
        }
    }
}

proof fn lemma_one_given_back(
    d: Seq<u8>,
    os: Seq<ReadObservation>,
    s: Seq<SignalObservation<&[u8], &[u8]>>,
    i: int,
    j: int,
)
    requires
        stream_ok(s),
        said(d, os, s),
        0 <= j < os.len(),
        0 <= i < s.len(),
        said_of(d, os[j], s, i),
    ensures
        gives_back(d, accumulated(os)[j], s, i),
{
    lemma_slips(d, os, s, i, j);
    let a = os.take(j + 1);
    assert(a.drop_last() =~= os.take(j));
    assert(a.last() == os[j]);
    assert(accumulated(os)[j] == with_arc(os[j], arc_after(os.take(j), os[j].key())));
    assert(values_text(d, os[j].v).ll == os[j].v.ll);
}

/// Counting the flags of what a file says gives the observations back.
proof fn lemma_given_back(
    d: Seq<u8>,
    os: Seq<ReadObservation>,
    s: Seq<SignalObservation<&[u8], &[u8]>>,
)
    requires
        stream_ok(s),
        said(d, os, s),
    ensures
        give_back(d, accumulated(os), s),
{
    let r = accumulated(os);
    assert forall|j: int| #[trigger] comes_from(d, r, s, j) by {
        if 0 <= j < r.len() {
            assert(has_source(d, os, s, j));
            let i = choose|i: int| is_shown(s, i) && #[trigger] said_of(d, os[j], s, i);
            lemma_one_given_back(d, os, s, i, j);
            assert(gives_back(d, r[j], s, i));
        }
    }
    assert forall|i: int| #[trigger] is_given_back(d, r, s, i) by {
        if is_shown(s, i) {
            assert(is_said(d, os, s, i));
            let j = choose|j: int| 0 <= j < os.len() && #[trigger] said_of(d, os[j], s, i);
            lemma_one_given_back(d, os, s, i, j);
            assert(gives_back(d, r[j], s, i));
        }
    }
    assert forall|i: int, j: int| 0 <= i < j < r.len() implies ({
        &&& (#[trigger] r[i]).t.0 <= (#[trigger] r[j]).t.0
        &&& r[i].t == r[j].t ==> r[i].key() != r[j].key()
    }) by {
        assert(os[i].t.0 <= os[j].t.0);
        assert(os[i].t == os[j].t ==> os[i].key() != os[j].key());
    }
}

/// Whether arcs are counted: the first of a signal is 0 or 1, and each other is
/// the one before it or one more.
pub open spec fn arcs_counted<F, G>(s: Seq<SignalObservation<F, G>>) -> bool {
    forall|i: int|
        0 <= i < s.len() ==> {
            let p: u32 = match last_arc(s.take(i), (#[trigger] s[i]).key()) {
                Some(n) => n,
                None => 0,
            };
            s[i].v.arc == p || s[i].v.arc == p + 1
        }
}

/// Arcs that are counted come back as they were: as many losses of lock are read
/// as the arc of the observation says.
pub proof fn lemma_arcs_restored<F, G>(s: Seq<SignalObservation<F, G>>, i: int)
    requires
        0 <= i < s.len(),
        arcs_counted(s),
    ensures
        slips(s, i) == s[i].v.arc,
{
    lemma_counted(s, i + 1, s[i].key());
    assert(s.take(i + 1).last() == s[i]);
}

proof fn lemma_counted<F, G>(s: Seq<SignalObservation<F, G>>, n: int, k: SignalKey)
    requires
        0 <= n <= s.len(),
        arcs_counted(s),
    ensures
        arc_after(flagged(s).take(n), k) == (match last_arc(s.take(n), k) {
            Some(a) => a,
            None => 0,
        }),
    decreases n,
{
    if n > 0 {
        lemma_counted(s, n - 1, k);
        let f = flagged(s).take(n);
        let p = s.take(n);
        let o = s[n - 1];
        assert(f.drop_last() =~= flagged(s).take(n - 1));
        assert(p.drop_last() =~= s.take(n - 1));
        assert(p.last() == o);
        assert(f.last().key() == o.key());
        assert(f.last().v.ll == slipped(s.take(n - 1 + 1)));
        assert(s[n - 1].v.arc == o.v.arc);
    }
}

} // verus!
