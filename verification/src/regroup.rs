//! The epochs that observations are grouped into hold each observation once, at
//! its time and its satellite, and nothing else.

use crate::obs::{
    code_signal, obs_code, sat_valid, GpsTime, ObsCode, SatId, SigId, SignalObservation,
    SignalValues, TYPE_CODE, TYPE_DOPPLER, TYPE_PHASE, TYPE_SIGNAL_STRENGTH,
};
use crate::reread::{countable, fields_ok, is_number, records_ok};
use crate::rinexobs::{
    epochs_of, field_index, field_of, fields_of, ids_valid, lemma_field_index_bound,
    lemma_record_index_bound, record_index, slipped, with_epoch, with_fields, with_record,
    EpochView, ObsField, SatRecordView,
};
use vstd::prelude::*;

verus! {

/// Whether the number of an observation, where there is one, can be read again.
pub open spec fn value_ok(v: Option<&[u8]>) -> bool {
    v matches Some(x) ==> is_number(x@)
}

/// Whether an observation can be written and read again.
pub open spec fn observation_ok(o: SignalObservation<&[u8], &[u8]>) -> bool {
    &&& ids_valid(o)
    &&& countable(o.t)
    &&& value_ok(o.v.pr)
    &&& value_ok(o.v.cp)
    &&& value_ok(o.v.dop)
    &&& value_ok(o.v.cn0)
}

/// Whether observations stand in the order of time, those of one time are of
/// different signals, and all can be written and read again.
pub open spec fn stream_ok(s: Seq<SignalObservation<&[u8], &[u8]>>) -> bool {
    &&& forall|i: int| 0 <= i < s.len() ==> observation_ok(#[trigger] s[i])
    &&& forall|i: int, j: int|
        0 <= i < j < s.len() ==> {
            &&& (#[trigger] s[i]).t.0 <= (#[trigger] s[j]).t.0
            &&& s[i].t == s[j].t ==> s[i].key() != s[j].key()
        }
}

// ---- fields ----

/// A field is found among the first fields, else among those that are added.
pub proof fn lemma_with_fields<F>(
    fields: Seq<(ObsCode, ObsField<F>)>,
    more: Seq<(ObsCode, ObsField<F>)>,
    code: ObsCode,
)
    ensures
        field_of(with_fields(fields, more), code) == (if field_of(fields, code) is Some {
            field_of(fields, code)
        } else {
            field_of(more, code)
        }),
    decreases more.len(),
{
    if more.len() == 0 {
        assert(field_index(more, code) == 0);
    } else {
        let t = more.drop_last();
        let last = more.last();
        lemma_with_fields(fields, t, code);
        lemma_with_fields(fields, t, last.0);
        let before = with_fields(fields, t);
        lemma_field_of_push(t, last, code);
        lemma_field_of_push(before, last, code);
        assert(t.push(last) =~= more);
    }
}

proof fn lemma_field_of_push<F>(
    fields: Seq<(ObsCode, ObsField<F>)>,
    e: (ObsCode, ObsField<F>),
    code: ObsCode,
)
    ensures
        field_of(fields.push(e), code) == (if field_of(fields, code) is Some {
            field_of(fields, code)
        } else if e.0 == code {
            Some(e.1)
        } else {
            None
        }),
    decreases fields.len(),
{
    let all = fields.push(e);
    if fields.len() == 0 {
        assert(field_index(all.skip(1), code) == 0);
        assert(field_index(fields, code) == 0);
    } else if fields[0].0 != code {
        lemma_field_of_push(fields.skip(1), e, code);
        assert(all.skip(1) =~= fields.skip(1).push(e));
        lemma_field_index_bound(fields.skip(1), code);
        lemma_field_index_bound(all.skip(1), code);
        let i = field_index(fields.skip(1), code);
        let j = field_index(all.skip(1), code);
        assert(field_index(fields, code) == 1 + i);
        assert(field_index(all, code) == 1 + j);
        if i < fields.skip(1).len() {
            assert(fields[1 + i] == fields.skip(1)[i]);
        }
        if j < all.skip(1).len() {
            assert(all[1 + j] == all.skip(1)[j]);
        }
    }
}

proof fn lemma_with_fields_ok(
    fields: Seq<(ObsCode, ObsField<&[u8]>)>,
    more: Seq<(ObsCode, ObsField<&[u8]>)>,
)
    requires
        fields_ok(fields),
        fields_ok(more),
    ensures
        fields_ok(with_fields(fields, more)),
    decreases more.len(),
{
    if more.len() > 0 {
        let t = more.drop_last();
        assert forall|i: int| 0 <= i < t.len() implies crate::reread::field_ok(
            (#[trigger] t[i]).1,
        ) by {
            assert(t[i] == more[i]);
        }
        lemma_with_fields_ok(fields, t);
        assert(crate::reread::field_ok(more[more.len() - 1].1));
    }
}

/// The fields of an observation: those of its four codes, and no other.
pub proof fn lemma_own_fields(sig: SigId, v: SignalValues<&[u8], &[u8]>, changed: bool)
    requires
        value_ok(v.pr),
        value_ok(v.cp),
        value_ok(v.dop),
        value_ok(v.cn0),
    ensures
        fields_ok(fields_of(sig, v, changed)),
        forall|code: ObsCode|
            code_signal(code) != sig ==> #[trigger] field_of(fields_of(sig, v, changed), code)
                is None,
{
    let all = fields_of(sig, v, changed);
    assert forall|i: int| 0 <= i < all.len() implies code_signal((#[trigger] all[i]).0) == sig
        && crate::reread::field_ok(all[i].1) by {
        let c = all[i].0;
        assert(c == obs_code(sig, TYPE_CODE) || c == obs_code(sig, TYPE_PHASE) || c == obs_code(
            sig,
            TYPE_DOPPLER,
        ) || c == obs_code(sig, TYPE_SIGNAL_STRENGTH));
        assert(code_signal(c).0 =~= sig.0);
    }
    assert forall|code: ObsCode| code_signal(code) != sig implies #[trigger] field_of(all, code)
        is None by {
        lemma_field_index_bound(all, code);
        let i = field_index(all, code);
        if i < all.len() {
            lemma_found_code(all, code);
            assert(code_signal(all[i].0) == sig);
        }
    }
}

/// The field that is found has the code that was sought.
pub proof fn lemma_found_code<F>(fields: Seq<(ObsCode, ObsField<F>)>, code: ObsCode)
    ensures
        0 <= field_index(fields, code) <= fields.len(),
        field_index(fields, code) < fields.len() ==> fields[field_index(fields, code)].0 == code,
    decreases fields.len(),
{
    if fields.len() > 0 && fields[0].0 != code {
        lemma_found_code(fields.skip(1), code);
        let i = field_index(fields.skip(1), code);
        if i < fields.skip(1).len() {
            assert(fields[1 + i] == fields.skip(1)[i]);
        }
    }
}

// ---- records and epochs ----

/// Whether a record holds an observation: the fields of its signal are those of
/// the observation.
pub open spec fn holds(
    r: SatRecordView<&[u8]>,
    o: SignalObservation<&[u8], &[u8]>,
    changed: bool,
) -> bool {
    &&& r.sat == o.sat
    &&& forall|code: ObsCode|
        code_signal(code) == o.sig ==> #[trigger] field_of(r.fields, code) == field_of(
            fields_of(o.sig, o.v, changed),
            code,
        )
}

/// Whether an epoch has a record that holds an observation.
pub open spec fn epoch_holds(
    e: EpochView<&[u8]>,
    o: SignalObservation<&[u8], &[u8]>,
    changed: bool,
) -> bool {
    e.t == o.t && exists|r: int| 0 <= r < e.sats.len() && holds(#[trigger] e.sats[r], o, changed)
}

/// Whether one of the epochs has a record that holds an observation.
pub open spec fn epochs_hold(
    es: Seq<EpochView<&[u8]>>,
    o: SignalObservation<&[u8], &[u8]>,
    changed: bool,
) -> bool {
    exists|e: int| 0 <= e < es.len() && epoch_holds(#[trigger] es[e], o, changed)
}

/// Whether one of the first `n` observations is of a time, a satellite and a
/// signal.
pub open spec fn given(
    s: Seq<SignalObservation<&[u8], &[u8]>>,
    n: int,
    t: GpsTime,
    sat: SatId,
    sig: SigId,
) -> bool {
    exists|i: int|
        0 <= i < n && (#[trigger] s[i]).t == t && s[i].sat == sat && s[i].sig == sig
}

/// Whether the fields of a record come from the first `n` observations.
pub open spec fn record_from(
    r: SatRecordView<&[u8]>,
    s: Seq<SignalObservation<&[u8], &[u8]>>,
    n: int,
    t: GpsTime,
) -> bool {
    forall|code: ObsCode| #[trigger]
        field_of(r.fields, code) is Some ==> given(s, n, t, r.sat, code_signal(code))
}

/// Whether an epoch is well formed and comes from the first `n` observations.
pub open spec fn epoch_from(
    e: EpochView<&[u8]>,
    s: Seq<SignalObservation<&[u8], &[u8]>>,
    n: int,
) -> bool {
    &&& countable(e.t)
    &&& records_ok(e.sats)
    &&& forall|r: int| 0 <= r < e.sats.len() ==> record_from(#[trigger] e.sats[r], s, n, e.t)
}

/// Whether epochs are those of the first `n` observations.
pub open spec fn grouped(
    es: Seq<EpochView<&[u8]>>,
    s: Seq<SignalObservation<&[u8], &[u8]>>,
    n: int,
) -> bool {
    &&& forall|e: int| 0 <= e < es.len() ==> epoch_from(#[trigger] es[e], s, n)
    &&& forall|i: int, j: int|
        0 <= i < j < es.len() ==> (#[trigger] es[i]).t.0 < (#[trigger] es[j]).t.0
    &&& n > 0 ==> es.len() > 0 && es.last().t == s[n - 1].t
    &&& n == 0 ==> es.len() == 0
    &&& forall|i: int| 0 <= i < n ==> epochs_hold(es, #[trigger] s[i], slipped(s.take(i + 1)))
}

proof fn lemma_given_more(
    s: Seq<SignalObservation<&[u8], &[u8]>>,
    n: int,
    m: int,
    t: GpsTime,
    sat: SatId,
    sig: SigId,
)
    requires
        n <= m,
        given(s, n, t, sat, sig),
    ensures
        given(s, m, t, sat, sig),
{
    let i = choose|i: int|
        0 <= i < n && (#[trigger] s[i]).t == t && s[i].sat == sat && s[i].sig == sig;
    assert(0 <= i < m && s[i].t == t);
}

proof fn lemma_epoch_from_more(
    e: EpochView<&[u8]>,
    s: Seq<SignalObservation<&[u8], &[u8]>>,
    n: int,
    m: int,
)
    requires
        n <= m,
        epoch_from(e, s, n),
    ensures
        epoch_from(e, s, m),
{
    assert forall|r: int| 0 <= r < e.sats.len() implies record_from(
        #[trigger] e.sats[r],
        s,
        m,
        e.t,
    ) by {
        let x = e.sats[r];
        assert(record_from(x, s, n, e.t));
        assert forall|code: ObsCode| #[trigger] field_of(x.fields, code) is Some implies given(
            s,
            m,
            e.t,
            x.sat,
            code_signal(code),
        ) by {
            lemma_given_more(s, n, m, e.t, x.sat, code_signal(code));
        }
    }
}

/// An observation added to the records of its time.
proof fn lemma_with_record(
    sats: Seq<SatRecordView<&[u8]>>,
    s: Seq<SignalObservation<&[u8], &[u8]>>,
    n: int,
    changed: bool,
)
    requires
        0 <= n < s.len(),
        stream_ok(s),
        records_ok(sats),
        forall|r: int| 0 <= r < sats.len() ==> record_from(#[trigger] sats[r], s, n, s[n].t),
    ensures
        ({
            let o = s[n];
            let after = with_record(sats, o.sat, fields_of(o.sig, o.v, changed));
            let e = EpochView { t: o.t, sats: after };
            &&& epoch_from(e, s, n + 1)
            &&& epoch_holds(e, o, changed)
            &&& forall|i: int, c: bool|
                0 <= i < n && #[trigger] epoch_holds(EpochView { t: o.t, sats }, s[i], c)
                    ==> epoch_holds(e, s[i], c)
        }),
{
    let o = s[n];
    let more = fields_of(o.sig, o.v, changed);
    let k = record_index(sats, o.sat);
    let after = with_record(sats, o.sat, more);
    let e = EpochView { t: o.t, sats: after };
    assert(observation_ok(o));
    lemma_own_fields(o.sig, o.v, changed);
    lemma_record_index_bound(sats, o.sat);
    let old_fields = if k < sats.len() {
        sats[k].fields
    } else {
        Seq::empty()
    };
    let new = SatRecordView { sat: o.sat, fields: with_fields(old_fields, more) };
    assert(after == (if k < sats.len() {
        sats.update(k, new)
    } else {
        sats.push(new)
    }));
    lemma_with_fields_ok(old_fields, more);
    // No field of this signal was there before.
    assert forall|code: ObsCode| code_signal(code) == o.sig implies #[trigger] field_of(
        old_fields,
        code,
    ) is None by {
        if k < sats.len() {
            assert(record_from(sats[k], s, n, o.t));
            if field_of(old_fields, code) is Some {
                assert(given(s, n, o.t, o.sat, o.sig));
                let i = choose|i: int|
                    0 <= i < n && (#[trigger] s[i]).t == o.t && s[i].sat == o.sat && s[i].sig
                        == o.sig;
                assert(s[i].key() != s[n].key());
            }
        } else {
            assert(field_index(old_fields, code) == 0);
        }
    }
    assert forall|code: ObsCode| #[trigger] field_of(new.fields, code) == (if field_of(
        old_fields,
        code,
    ) is Some {
        field_of(old_fields, code)
    } else {
        field_of(more, code)
    }) by {
        lemma_with_fields(old_fields, more, code);
    }
    assert(holds(new, o, changed));
    assert(after[k] == new);
    assert(holds(e.sats[k], o, changed));
    assert(epoch_holds(e, o, changed));
    assert(records_ok(after)) by {
        assert forall|i: int| 0 <= i < after.len() implies sat_valid(
            (#[trigger] after[i]).sat.0@,
        ) && fields_ok(after[i].fields) by {
            if i != k {
                assert(after[i] == sats[i]);
            }
        }
        assert forall|i: int, j: int| 0 <= i < j < after.len() implies (#[trigger] after[i]).sat
            != (#[trigger] after[j]).sat by {
            if i != k && j != k {
                assert(sats[i].sat != sats[j].sat);
            } else if k < sats.len() {
                assert(sats[i].sat != sats[j].sat);
            } else {
                assert(j == k);
                lemma_no_record(sats, o.sat, i);
            }
        }
    }
    assert forall|r: int| 0 <= r < after.len() implies record_from(
        #[trigger] after[r],
        s,
        n + 1,
        o.t,
    ) by {
        let x = after[r];
        assert forall|code: ObsCode| #[trigger] field_of(x.fields, code) is Some implies given(
            s,
            n + 1,
            o.t,
            x.sat,
            code_signal(code),
        ) by {
            if r == k {
                if field_of(old_fields, code) is Some {
                    assert(k < sats.len());
                    assert(record_from(sats[k], s, n, o.t));
                    lemma_given_more(s, n, n + 1, o.t, o.sat, code_signal(code));
                } else {
                    assert(field_of(more, code) is Some);
                    assert(code_signal(code) == o.sig);
                    assert(s[n].t == o.t);
                }
            } else {
                assert(x == sats[r]);
                assert(record_from(sats[r], s, n, o.t));
                lemma_given_more(s, n, n + 1, o.t, x.sat, code_signal(code));
            }
        }
    }
    assert forall|i: int, c: bool|
        0 <= i < n && #[trigger] epoch_holds(
            EpochView { t: o.t, sats },
            s[i],
            c,
        ) implies epoch_holds(e, s[i], c) by {
        let before = EpochView { t: o.t, sats };
        let r = choose|r: int| 0 <= r < before.sats.len() && holds(#[trigger] before.sats[r], s[i], c);
        if r == k {
            assert(s[i].t == s[n].t);
            assert(s[i].key() != s[n].key());
            assert(s[i].sig != o.sig);
            assert forall|code: ObsCode| code_signal(code) == s[i].sig implies #[trigger] field_of(
                new.fields,
                code,
            ) == field_of(fields_of(s[i].sig, s[i].v, c), code) by {
                assert(field_of(more, code) is None);
                assert(field_of(sats[r].fields, code) == field_of(
                    fields_of(s[i].sig, s[i].v, c),
                    code,
                ));
            }
            assert(holds(after[k], s[i], c));
        } else {
            assert(after[r] == sats[r]);
            assert(holds(after[r], s[i], c));
        }
    }
}

proof fn lemma_no_record<F>(sats: Seq<SatRecordView<F>>, sat: SatId, i: int)
    requires
        record_index(sats, sat) == sats.len(),
        0 <= i < sats.len(),
    ensures
        sats[i].sat != sat,
    decreases sats.len(),
{
    lemma_record_index_bound(sats.skip(1), sat);
    if i > 0 {
        lemma_no_record(sats.skip(1), sat, i - 1);
    }
}

/// Observations are grouped into epochs that hold them.
pub proof fn lemma_grouped(s: Seq<SignalObservation<&[u8], &[u8]>>, n: int)
    requires
        stream_ok(s),
        0 <= n <= s.len(),
    ensures
        grouped(epochs_of(s.take(n)), s, n),
    decreases n,
{
    if n > 0 {
        lemma_grouped(s, n - 1);
        let os = s.take(n);
        let o = s[n - 1];
        assert(os.drop_last() =~= s.take(n - 1));
        assert(os.last() == o);
        let before = epochs_of(s.take(n - 1));
        let changed = slipped(os);
        let more = fields_of(o.sig, o.v, changed);
        let after = epochs_of(os);
        assert(after == with_epoch(before, o.t, o.sat, more));
        assert(observation_ok(o));
        let old_sats = if before.len() > 0 && before.last().t == o.t {
            before.last().sats
        } else {
            Seq::empty()
        };
        let k = if before.len() > 0 && before.last().t == o.t {
            before.len() - 1
        } else {
            before.len() as int
        };
        let e = EpochView { t: o.t, sats: with_record(old_sats, o.sat, more) };
        assert(before.len() > 0 ==> before.last() == before[before.len() - 1]);
        assert forall|r: int| 0 <= r < old_sats.len() implies record_from(
            #[trigger] old_sats[r],
            s,
            n - 1,
            o.t,
        ) by {
            assert(epoch_from(before[before.len() - 1], s, n - 1));
        }
        assert(records_ok(old_sats)) by {
            if before.len() > 0 && before.last().t == o.t {
                assert(epoch_from(before[before.len() - 1], s, n - 1));
            }
        }
        lemma_with_record(old_sats, s, n - 1, changed);
        assert(after[k] == e);
        assert forall|i: int| 0 <= i < after.len() implies epoch_from(#[trigger] after[i], s, n) by {
            if i != k {
                assert(after[i] == before[i]);
                assert(epoch_from(before[i], s, n - 1));
                lemma_epoch_from_more(before[i], s, n - 1, n);
            }
        }
        assert forall|i: int, j: int| 0 <= i < j < after.len() implies (#[trigger] after[i]).t.0
            < (#[trigger] after[j]).t.0 by {
            assert(after[i] == before[i]);
            if j < k {
                assert(after[j] == before[j]);
                assert(before[i].t.0 < before[j].t.0);
            } else if k < before.len() {
                assert(before[i].t.0 < before[k].t.0);
            } else {
                assert(before.len() > 0);
                assert(n - 1 > 0);
                assert(before.last().t == s[n - 2].t);
                assert(s[n - 2].t.0 <= s[n - 1].t.0);
                assert(before.last().t != o.t);
                if i < before.len() - 1 {
                    assert(before[i].t.0 < before[before.len() - 1].t.0);
                }
            }
        }
        assert forall|i: int| 0 <= i < n implies epochs_hold(
            after,
            #[trigger] s[i],
            slipped(s.take(i + 1)),
        ) by {
            if i == n - 1 {
                assert(epoch_holds(after[k], s[i], slipped(s.take(i + 1))));
            } else {
                let c = slipped(s.take(i + 1));
                assert(epochs_hold(before, s[i], c));
                let x = choose|x: int| 0 <= x < before.len() && epoch_holds(#[trigger] before[x], s[i], c);
                if x == k {
                    assert(before[x] == EpochView { t: o.t, sats: old_sats });
                    assert(epoch_holds(EpochView { t: o.t, sats: old_sats }, s[i], c));
                    assert(epoch_holds(after[k], s[i], c));
                } else {
                    assert(after[x] == before[x]);
                    assert(epoch_holds(after[x], s[i], c));
                }
            }
        }
    } else {
        assert(s.take(0) =~= Seq::empty());
    }
}

} // verus!
