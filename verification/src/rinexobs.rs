//! The contents of a RINEX observation file.
//!
//! A field has an *optional* observation value, so a loss-of-lock marker on a
//! pseudorange-only signal (a blank carrier-phase field that exists only to hold
//! the indicator) round-trips faithfully.

use crate::arc::{arc_changed, last_arc, ArcToLl};
use crate::error::Result;
use crate::obs::{
    is_system, lli_of, obs_code, sat_code, sat_number, sat_valid, sig_valid, lemma_code_parts, lemma_sat_number_unique,
    id_text, code_signal, GpsTime, ObsCode, SatId, SigId, SignalKey, SignalObservation, SignalValues, TYPE_CODE, TYPE_DOPPLER, TYPE_PHASE,
    TYPE_SIGNAL_STRENGTH,
};
use crate::text::{quoted_text, with_quoted};
use vstd::prelude::*;
use vstd::utf8::{decode_utf8, encode_utf8_decode_utf8};

verus! {

/// The systems in the order in which a file lists them: GPS, GLONASS, Galileo,
/// QZSS, BeiDou, NavIC, SBAS.
pub const SYSTEM_ORDER: [u8; 7] = [0x47, 0x52, 0x45, 0x4a, 0x43, 0x49, 0x53];

/// The place of a system in the order of a file; 7 for no system.
pub open spec fn system_rank(sys: u8) -> int {
    if sys == 0x47 {
        0
    } else if sys == 0x52 {
        1
    } else if sys == 0x45 {
        2
    } else if sys == 0x4a {
        3
    } else if sys == 0x43 {
        4
    } else if sys == 0x49 {
        5
    } else if sys == 0x53 {
        6
    } else {
        7
    }
}

/// The place of a system in the order of a file; 7 for no system.
pub fn system_index(sys: u8) -> (r: usize)
    ensures
        r == system_rank(sys),
        r < 7 <==> is_system(sys),
{
    match sys {
        0x47 => 0,
        0x52 => 1,
        0x45 => 2,
        0x4a => 3,
        0x43 => 4,
        0x49 => 5,
        0x53 => 6,
        _ => 7,
    }
}

// ---- observation codes ----

/// The order of the observation types: code, phase, Doppler, signal strength.
pub open spec fn type_rank(typ: u8) -> int {
    if typ == TYPE_CODE {
        0
    } else if typ == TYPE_PHASE {
        1
    } else if typ == TYPE_DOPPLER {
        2
    } else if typ == TYPE_SIGNAL_STRENGTH {
        3
    } else {
        4
    }
}

/// The order of the observation types.
pub fn observation_type_index(b: u8) -> (r: usize)
    ensures
        r == type_rank(b),
{
    match b {
        0x43 => 0,
        0x4c => 1,
        0x44 => 2,
        0x53 => 3,
        _ => 4,
    }
}

/// Codes are ordered by signal, and by type within a signal.
pub open spec fn code_rank(c: ObsCode) -> int {
    (c.0@[1] * 256 + c.0@[2]) * 8 + type_rank(c.0@[0])
}

/// Whether `a` stands before `b` in the order of codes.
pub fn less_observation_code(a: ObsCode, b: ObsCode) -> (r: bool)
    ensures
        r == (code_rank(a) < code_rank(b)),
{
    if a.0[1] != b.0[1] {
        return a.0[1] < b.0[1];
    }
    if a.0[2] != b.0[2] {
        return a.0[2] < b.0[2];
    }
    observation_type_index(a.0[0]) < observation_type_index(b.0[0])
}

/// Whether codes stand in order.
pub open spec fn codes_sorted(s: Seq<ObsCode>) -> bool {
    forall|i: int, j: int| 0 <= i < j < s.len() ==> code_rank(s[i]) <= code_rank(s[j])
}

/// The codes of a given rank, in order.
pub open spec fn of_rank(s: Seq<ObsCode>, r: int) -> Seq<ObsCode> {
    s.filter(|c: ObsCode| code_rank(c) == r)
}

/// Whether `t` holds the same codes as `s`, in order, with codes of the same rank
/// in the order they had.
pub open spec fn stably_sorted(s: Seq<ObsCode>, t: Seq<ObsCode>) -> bool {
    &&& codes_sorted(t)
    &&& t.to_multiset() == s.to_multiset()
    &&& forall|r: int| of_rank(t, r) == #[trigger] of_rank(s, r)
}

proof fn lemma_swap_filter(s: Seq<ObsCode>, j: int, r: int)
    requires
        0 < j < s.len(),
        code_rank(s[j]) != code_rank(s[j - 1]),
    ensures
        of_rank(s.update(j, s[j - 1]).update(j - 1, s[j]), r) == of_rank(s, r),
        s.update(j, s[j - 1]).update(j - 1, s[j]).to_multiset() == s.to_multiset(),
{
    let f = |c: ObsCode| code_rank(c) == r;
    let t = s.update(j, s[j - 1]).update(j - 1, s[j]);
    let head = s.take(j - 1);
    let tail = s.skip(j + 1);
    let a = seq![s[j - 1], s[j]];
    let b = seq![s[j], s[j - 1]];
    assert(s =~= head + a + tail);
    assert(t =~= head + b + tail);
    reveal_with_fuel(Seq::filter, 3);
    assert(a.drop_last() =~= seq![s[j - 1]]);
    assert(b.drop_last() =~= seq![s[j]]);
    assert(seq![s[j - 1]].drop_last() =~= Seq::<ObsCode>::empty());
    assert(seq![s[j]].drop_last() =~= Seq::<ObsCode>::empty());
    assert(a.filter(f) =~= b.filter(f));
    Seq::filter_distributes_over_add(head + a, tail, f);
    Seq::filter_distributes_over_add(head, a, f);
    Seq::filter_distributes_over_add(head + b, tail, f);
    Seq::filter_distributes_over_add(head, b, f);
    vstd::seq_lib::lemma_multiset_commutative(head + a, tail);
    vstd::seq_lib::lemma_multiset_commutative(head, a);
    vstd::seq_lib::lemma_multiset_commutative(head + b, tail);
    vstd::seq_lib::lemma_multiset_commutative(head, b);
    assert(a.to_multiset() =~= b.to_multiset()) by {
        vstd::seq_lib::lemma_multiset_commutative(seq![s[j - 1]], seq![s[j]]);
        vstd::seq_lib::lemma_multiset_commutative(seq![s[j]], seq![s[j - 1]]);
        assert(seq![s[j - 1]] + seq![s[j]] =~= a);
        assert(seq![s[j]] + seq![s[j - 1]] =~= b);
    }
}

/// Sorts codes by signal, then in the order of the types; codes of the same rank
/// keep their order.
pub fn sort_observation_codes(codes: &mut Vec<ObsCode>)
    ensures
        stably_sorted(old(codes)@, final(codes)@),
{
    let ghost s = codes@;
    let n: usize = codes.len();
    let mut i: usize = 1;
    while i < n
        invariant
            codes@.len() == n,
            n == s.len(),
            1 <= i,
            i <= n || n == 0,
            forall|a: int, b: int|
                0 <= a < b < i && b < n ==> code_rank(#[trigger] codes@[a]) <= code_rank(
                    #[trigger] codes@[b],
                ),
            codes@.to_multiset() == s.to_multiset(),
            forall|r: int| of_rank(codes@, r) == #[trigger] of_rank(s, r),
        decreases n - i,
    {
        let mut j: usize = i;
        while j > 0 && less_observation_code(codes[j], codes[j - 1])
            invariant
                0 <= j <= i < n,
                codes@.len() == n,
                n == s.len(),
                forall|a: int, b: int|
                    0 <= a < b <= i && b != j ==> code_rank(#[trigger] codes@[a]) <= code_rank(
                        #[trigger] codes@[b],
                    ),
                codes@.to_multiset() == s.to_multiset(),
                forall|r: int| of_rank(codes@, r) == #[trigger] of_rank(s, r),
            decreases j,
        {
            let ghost before = codes@;
            let x: ObsCode = codes[j];
            let y: ObsCode = codes[j - 1];
            codes.set(j, y);
            codes.set(j - 1, x);
            proof {
                assert forall|r: int| of_rank(codes@, r) == #[trigger] of_rank(s, r) by {
                    lemma_swap_filter(before, j as int, r);
                }
                lemma_swap_filter(before, j as int, 0);
            }
            j -= 1;
        }
        i += 1;
    }
}

// ---- the file ----

/// One observation in a file: a value, which may be blank, and its loss-of-lock
/// indicator.
#[derive(Clone, Copy)]
pub struct ObsField<F> {
    pub val: Option<F>,
    pub lli: u8,
}

/// The fields of one satellite in one epoch.
pub struct SatRecord<F> {
    pub sat: SatId,
    pub fields: Vec<(ObsCode, ObsField<F>)>,
}

/// The contents of a [`SatRecord`].
#[verifier::ext_equal]
pub struct SatRecordView<F> {
    pub sat: SatId,
    pub fields: Seq<(ObsCode, ObsField<F>)>,
}

impl<F> View for SatRecord<F> {
    type V = SatRecordView<F>;

    open spec fn view(&self) -> SatRecordView<F> {
        SatRecordView { sat: self.sat, fields: self.fields@ }
    }
}

/// The satellites of one epoch, in the order in which they were observed.
pub struct Epoch<F> {
    pub t: GpsTime,
    pub sats: Vec<SatRecord<F>>,
}

/// The contents of an [`Epoch`].
#[verifier::ext_equal]
pub struct EpochView<F> {
    pub t: GpsTime,
    pub sats: Seq<SatRecordView<F>>,
}

/// The contents of satellite records.
pub open spec fn records<F>(v: Seq<SatRecord<F>>) -> Seq<SatRecordView<F>> {
    v.map_values(|r: SatRecord<F>| r@)
}

impl<F> View for Epoch<F> {
    type V = EpochView<F>;

    open spec fn view(&self) -> EpochView<F> {
        EpochView { t: self.t, sats: records(self.sats@) }
    }
}

/// The contents of epochs.
pub open spec fn epoch_views<F>(v: Seq<Epoch<F>>) -> Seq<EpochView<F>> {
    v.map_values(|e: Epoch<F>| e@)
}

/// Everything a file holds besides its header facts.
pub struct ObsFile<F> {
    /// The codes of each system, in the order of [`SYSTEM_ORDER`].
    pub codes: Vec<Vec<ObsCode>>,
    pub epochs: Vec<Epoch<F>>,
    /// The frequency channels, in the order of the satellites.
    pub frq: Vec<(SatId, i8)>,
    pub first: GpsTime,
    pub last: GpsTime,
}

/// The codes of each system.
pub open spec fn code_lists(v: Seq<Vec<ObsCode>>) -> Seq<Seq<ObsCode>> {
    v.map_values(|l: Vec<ObsCode>| l@)
}

/// Whether an observation has something to write under a type. A phase field is
/// there as soon as there is anything: the loss-of-lock indicator stands in it.
pub open spec fn writes<F, G>(v: SignalValues<F, G>, changed: bool, typ: u8) -> bool {
    if typ == TYPE_CODE {
        v.pr is Some
    } else if typ == TYPE_PHASE {
        v.pr is Some || v.cp is Some || v.dop is Some || v.cn0 is Some || lli_of(
            changed,
            v.hc,
            v.bt,
        ) != 0
    } else if typ == TYPE_DOPPLER {
        v.dop is Some
    } else {
        typ == TYPE_SIGNAL_STRENGTH && v.cn0 is Some
    }
}

/// Whether the writer reports a slip on the last of `os`.
pub open spec fn slipped<F, G>(os: Seq<SignalObservation<F, G>>) -> bool {
    arc_changed(last_arc(os.drop_last(), os.last().key()), os.last().v.arc)
}

/// The fields that an observation fills.
pub open spec fn fields_of<F>(sig: SigId, v: SignalValues<F, F>, changed: bool) -> Seq<
    (ObsCode, ObsField<F>),
> {
    let lli = lli_of(changed, v.hc, v.bt);
    let code = match v.pr {
        Some(x) => seq![(obs_code(sig, TYPE_CODE), ObsField { val: Some(x), lli: 0u8 })],
        None => Seq::empty(),
    };
    let phase = if v.cp is Some || lli != 0 {
        seq![(obs_code(sig, TYPE_PHASE), ObsField { val: v.cp, lli })]
    } else {
        Seq::empty()
    };
    let doppler = match v.dop {
        Some(x) => seq![(obs_code(sig, TYPE_DOPPLER), ObsField { val: Some(x), lli: 0u8 })],
        None => Seq::empty(),
    };
    let strength = match v.cn0 {
        Some(x) => seq![
            (obs_code(sig, TYPE_SIGNAL_STRENGTH), ObsField { val: Some(x), lli: 0u8 }),
        ],
        None => Seq::empty(),
    };
    code + phase + doppler + strength
}

/// Where a code stands among fields; their number where it does not.
pub open spec fn field_index<F>(fields: Seq<(ObsCode, ObsField<F>)>, code: ObsCode) -> int
    decreases fields.len(),
{
    if fields.len() == 0 || fields[0].0 == code {
        0
    } else {
        1 + field_index(fields.skip(1), code)
    }
}

/// The field of a code.
pub open spec fn field_of<F>(fields: Seq<(ObsCode, ObsField<F>)>, code: ObsCode) -> Option<
    ObsField<F>,
> {
    let i = field_index(fields, code);
    if i < fields.len() {
        Some(fields[i].1)
    } else {
        None
    }
}

pub proof fn lemma_field_index_bound<F>(fields: Seq<(ObsCode, ObsField<F>)>, code: ObsCode)
    ensures
        0 <= field_index(fields, code) <= fields.len(),
    decreases fields.len(),
{
    if fields.len() > 0 && fields[0].0 != code {
        lemma_field_index_bound(fields.skip(1), code);
    }
}

/// Fields with more fields: one that is already there stays as it is.
pub open spec fn with_fields<F>(
    fields: Seq<(ObsCode, ObsField<F>)>,
    more: Seq<(ObsCode, ObsField<F>)>,
) -> Seq<(ObsCode, ObsField<F>)>
    decreases more.len(),
{
    if more.len() == 0 {
        fields
    } else {
        let before = with_fields(fields, more.drop_last());
        if field_of(before, more.last().0) is Some {
            before
        } else {
            before.push(more.last())
        }
    }
}

/// Where a satellite stands among records; their number where it does not.
pub open spec fn record_index<F>(sats: Seq<SatRecordView<F>>, sat: SatId) -> int
    decreases sats.len(),
{
    if sats.len() == 0 || sats[0].sat == sat {
        0
    } else {
        1 + record_index(sats.skip(1), sat)
    }
}

pub proof fn lemma_record_index_bound<F>(sats: Seq<SatRecordView<F>>, sat: SatId)
    ensures
        0 <= record_index(sats, sat) <= sats.len(),
        record_index(sats, sat) < sats.len() ==> sats[record_index(sats, sat)].sat == sat,
    decreases sats.len(),
{
    if sats.len() > 0 && sats[0].sat != sat {
        lemma_record_index_bound(sats.skip(1), sat);
    }
}

/// Records with more fields of a satellite.
pub open spec fn with_record<F>(
    sats: Seq<SatRecordView<F>>,
    sat: SatId,
    more: Seq<(ObsCode, ObsField<F>)>,
) -> Seq<SatRecordView<F>> {
    let i = record_index(sats, sat);
    if i < sats.len() {
        sats.update(i, SatRecordView { sat, fields: with_fields(sats[i].fields, more) })
    } else {
        sats.push(SatRecordView { sat, fields: with_fields(Seq::empty(), more) })
    }
}

/// Epochs with more fields of a satellite in the epoch of `t`, which is the last
/// one or a new one.
pub open spec fn with_epoch<F>(
    epochs: Seq<EpochView<F>>,
    t: GpsTime,
    sat: SatId,
    more: Seq<(ObsCode, ObsField<F>)>,
) -> Seq<EpochView<F>> {
    if epochs.len() > 0 && epochs.last().t == t {
        epochs.drop_last().push(EpochView { t, sats: with_record(epochs.last().sats, sat, more) })
    } else {
        epochs.push(EpochView { t, sats: with_record(Seq::empty(), sat, more) })
    }
}

/// The epochs of observations in the order of time.
pub open spec fn epochs_of<F>(os: Seq<SignalObservation<F, F>>) -> Seq<EpochView<F>>
    decreases os.len(),
{
    if os.len() == 0 {
        Seq::empty()
    } else {
        let o = os.last();
        with_epoch(epochs_of(os.drop_last()), o.t, o.sat, fields_of(o.sig, o.v, slipped(os)))
    }
}

/// The frequency channel last given for a satellite.
pub open spec fn last_frq<F, G>(os: Seq<SignalObservation<F, G>>, sat: SatId) -> Option<i8>
    decreases os.len(),
{
    if os.len() == 0 {
        None
    } else if os.last().sat == sat && os.last().v.frq is Some {
        os.last().v.frq
    } else {
        last_frq(os.drop_last(), sat)
    }
}

/// Whether channels are listed in the order of the satellites, each once.
pub open spec fn frq_sorted(l: Seq<(SatId, i8)>) -> bool {
    forall|i: int, j: int|
        0 <= i < j < l.len() ==> sat_number((#[trigger] l[i]).0) < sat_number((#[trigger] l[j]).0)
}

/// Whether channels are those last given in `os`, in the order of the satellites.
pub open spec fn frq_listed<F, G>(
    os: Seq<SignalObservation<F, G>>,
    l: Seq<(SatId, i8)>,
) -> bool {
    &&& frq_sorted(l)
    &&& forall|sat: SatId, n: i8| #[trigger]
        l.contains((sat, n)) <==> last_frq(os, sat) == Some(n)
}

/// Whether some observation of a system among `os` has something to write under
/// a code.
pub open spec fn code_used<F, G>(
    os: Seq<SignalObservation<F, G>>,
    system: int,
    code: ObsCode,
) -> bool {
    exists|i: int|
        {
            &&& 0 <= i < os.len()
            &&& system_rank((#[trigger] os[i]).sat.0@[0]) == system
            &&& code_signal(code) == os[i].sig
            &&& writes(os[i].v, slipped(os.take(i + 1)), code.0@[0])
        }
}

/// Whether codes stand in order, each once.
pub open spec fn codes_distinct(l: Seq<ObsCode>) -> bool {
    forall|i: int, j: int|
        0 <= i < j < l.len() ==> code_rank(#[trigger] l[i]) < code_rank(#[trigger] l[j])
}

/// Whether for each system the codes used in `os` are listed, in order.
pub open spec fn codes_listed<F, G>(
    os: Seq<SignalObservation<F, G>>,
    codes: Seq<Seq<ObsCode>>,
) -> bool {
    &&& codes.len() == 7
    &&& forall|k: int| 0 <= k < 7 ==> codes_distinct(#[trigger] codes[k])
    &&& forall|k: int, c: ObsCode|
        0 <= k < 7 ==> (#[trigger] codes[k].contains(c) <==> code_used(os, k, c))
}

/// The observations of a time, in order.
pub open spec fn at_time<F, G>(os: Seq<SignalObservation<F, G>>, t: GpsTime) -> Seq<
    SignalObservation<F, G>,
> {
    os.filter(|o: SignalObservation<F, G>| o.t == t)
}

/// Whether `s` holds the observations `os` in the order of time, those of the
/// same time in the order they had.
pub open spec fn in_time_order<F, G>(
    os: Seq<SignalObservation<F, G>>,
    s: Seq<SignalObservation<F, G>>,
) -> bool {
    &&& s.len() == os.len()
    &&& forall|i: int, j: int| 0 <= i < j < s.len() ==> (#[trigger] s[i]).t.0 <= (#[trigger] s[j]).t.0
    &&& forall|t: GpsTime| #[trigger] at_time(s, t) == at_time(os, t)
}

/// Sorts observations by time: `slice::sort_by_key`, which is stable, so that
/// observations of the same time keep their order.
#[verifier::external_body]
pub(crate) fn sort_by_time<F>(v: &mut Vec<SignalObservation<F, F>>)
    ensures
        in_time_order(old(v)@, final(v)@),
{
    v.sort_by_key(|o| o.t.0)
}

/// What stands at a time among observations, with one more.
proof fn lemma_at_time_last<F, G>(s: Seq<SignalObservation<F, G>>, t: GpsTime)
    requires
        s.len() > 0,
    ensures
        at_time(s, t) == (if s.last().t == t {
            at_time(s.drop_last(), t).push(s.last())
        } else {
            at_time(s.drop_last(), t)
        }),
{
    reveal(Seq::filter);
}

/// Nothing stands at a time that no observation has.
proof fn lemma_at_time_none<F, G>(s: Seq<SignalObservation<F, G>>, t: GpsTime)
    requires
        forall|i: int| 0 <= i < s.len() ==> (#[trigger] s[i]).t != t,
    ensures
        at_time(s, t).len() == 0,
    decreases s.len(),
{
    reveal(Seq::filter);
    if s.len() > 0 {
        lemma_at_time_none(s.drop_last(), t);
    }
}

proof fn lemma_last_latest<F, G>(s: Seq<SignalObservation<F, G>>, r: Seq<SignalObservation<F, G>>)
    requires
        s.len() > 0,
        r.len() > 0,
        in_time_order(s, s),
        in_time_order(s, r),
    ensures
        r.last().t.0 <= s.last().t.0,
{
    let t = r.last().t;
    lemma_at_time_last(r, t);
    if t.0 > s.last().t.0 {
        assert forall|i: int| 0 <= i < s.len() implies (#[trigger] s[i]).t != t by {
            assert(s[i].t.0 <= s[s.len() - 1].t.0);
        }
        lemma_at_time_none(s, t);
        assert(at_time(r, t) == at_time(s, t));
    }
}

proof fn lemma_sorted_unique<F, G>(s: Seq<SignalObservation<F, G>>, r: Seq<SignalObservation<F, G>>)
    requires
        in_time_order(s, s),
        in_time_order(s, r),
    ensures
        s == r,
    decreases s.len(),
{
    if s.len() > 0 {
        assert(in_time_order(r, r));
        assert(in_time_order(r, s));
        lemma_last_latest(s, r);
        lemma_last_latest(r, s);
        let t = s.last().t;
        lemma_at_time_last(s, t);
        lemma_at_time_last(r, t);
        assert(at_time(s, t) == at_time(r, t));
        assert(at_time(s, t).last() == s.last());
        assert(at_time(r, t).last() == r.last());
        let a = s.drop_last();
        let b = r.drop_last();
        assert forall|u: GpsTime| #[trigger] at_time(b, u) == at_time(a, u) by {
            lemma_at_time_last(s, u);
            lemma_at_time_last(r, u);
            assert(at_time(r, u) == at_time(s, u));
            if u == t {
                assert(at_time(a, u) =~= at_time(s, u).drop_last());
                assert(at_time(b, u) =~= at_time(r, u).drop_last());
            }
        }
        lemma_sorted_unique(a, b);
        assert(s =~= a.push(s.last()));
        assert(r =~= b.push(r.last()));
    } else {
        assert(s =~= r);
    }
}

/// The order of time is one: observations can be put in it in a single way.
pub proof fn lemma_time_order_unique<F, G>(
    os: Seq<SignalObservation<F, G>>,
    s: Seq<SignalObservation<F, G>>,
    r: Seq<SignalObservation<F, G>>,
)
    requires
        in_time_order(os, s),
        in_time_order(os, r),
    ensures
        s == r,
{
    assert forall|t: GpsTime| #[trigger] at_time(r, t) == at_time(s, t) by {
        assert(at_time(s, t) == at_time(os, t));
    }
    lemma_sorted_unique(s, r);
}

/// Whether an observation has a valid satellite and signal.
pub open spec fn ids_valid<F, G>(o: SignalObservation<F, G>) -> bool {
    sat_valid(o.sat.0@) && sig_valid(o.sig.0@)
}

/// What is said of an observation that has not.
pub open spec fn id_error<F, G>(o: SignalObservation<F, G>) -> Seq<char> {
    if !sat_valid(o.sat.0@) {
        "rinex: invalid satellite "@ + quoted_text(decode_utf8(id_text(o.sat.0@)))
    } else {
        "rinex: invalid signal "@ + quoted_text(decode_utf8(id_text(o.sig.0@)))
    }
}

/// Whether `f` is the file of observations in the order of time.
pub open spec fn file_of<F>(s: Seq<SignalObservation<F, F>>, f: ObsFile<F>) -> bool {
    &&& codes_listed(s, code_lists(f.codes@))
    &&& epoch_views(f.epochs@) == epochs_of(s)
    &&& frq_listed(s, f.frq@)
    &&& f.first == s.first().t
    &&& f.last == s.last().t
}

/// An observation fills no code twice.
pub proof fn lemma_fields_distinct<F>(sig: SigId, v: SignalValues<F, F>, changed: bool)
    ensures
        with_fields(Seq::empty(), fields_of(sig, v, changed)) == fields_of(sig, v, changed),
{
    let all = fields_of(sig, v, changed);
    lemma_code_parts(sig, TYPE_CODE);
    lemma_code_parts(sig, TYPE_PHASE);
    lemma_code_parts(sig, TYPE_DOPPLER);
    lemma_code_parts(sig, TYPE_SIGNAL_STRENGTH);
    assert forall|i: int, j: int| 0 <= i < j < all.len() implies (#[trigger] all[i]).0 != (
    #[trigger] all[j]).0 by {
        assert(all[i].0.0@[0] != all[j].0.0@[0]);
    }
    lemma_distinct_kept(all);
}

proof fn lemma_distinct_kept<F>(all: Seq<(ObsCode, ObsField<F>)>)
    requires
        forall|i: int, j: int|
            0 <= i < j < all.len() ==> (#[trigger] all[i]).0 != (#[trigger] all[j]).0,
    ensures
        with_fields(Seq::empty(), all) == all,
    decreases all.len(),
{
    if all.len() > 0 {
        let p = all.drop_last();
        lemma_distinct_kept(p);
        assert forall|i: int| 0 <= i < p.len() implies (#[trigger] p[i]).0 != all.last().0 by {
            assert(all[i].0 != all[all.len() - 1].0);
        }
        lemma_field_index(p, all.last().0, p.len() as int);
        assert(p.push(all.last()) =~= all);
    } else {
        assert(all =~= Seq::empty());
    }
}

// ---- building the file ----

/// Whether a code is of one of the four types.
spec fn known_type(c: ObsCode) -> bool {
    type_rank(c.0@[0]) < 4
}

proof fn lemma_rank_unique(a: ObsCode, b: ObsCode)
    requires
        known_type(a),
        known_type(b),
        code_rank(a) == code_rank(b),
    ensures
        a == b,
{
    assert(a.0@[0] == b.0@[0]);
    assert(a.0@[1] == b.0@[1]);
    assert(a.0@[2] == b.0@[2]);
    assert(a.0 =~= b.0);
}

/// Inserts a code into codes in order, unless it is there.
fn insert_code(l: &mut Vec<ObsCode>, c: ObsCode)
    requires
        codes_distinct(old(l)@),
        known_type(c),
        forall|i: int| 0 <= i < old(l)@.len() ==> known_type(#[trigger] old(l)@[i]),
    ensures
        codes_distinct(final(l)@),
        forall|i: int| 0 <= i < final(l)@.len() ==> known_type(#[trigger] final(l)@[i]),
        forall|d: ObsCode| #[trigger]
            final(l)@.contains(d) <==> d == c || old(l)@.contains(d),
{
    let mut i: usize = 0;
    while i < l.len() && less_observation_code(l[i], c)
        invariant
            i <= l@.len(),
            l@ == old(l)@,
            forall|j: int| 0 <= j < i ==> code_rank(#[trigger] l@[j]) < code_rank(c),
        decreases l@.len() - i,
    {
        i += 1;
    }
    if i < l.len() && !less_observation_code(c, l[i]) {
        proof {
            lemma_rank_unique(c, l@[i as int]);
            assert(l@.contains(c));
        }
        return;
    }
    l.insert(i, c);
    proof {
        let a = old(l)@;
        let b = l@;
        assert(b == a.insert(i as int, c));
        assert forall|x: int, y: int| 0 <= x < y < b.len() implies code_rank(#[trigger] b[x])
            < code_rank(#[trigger] b[y]) by {
            if y > i && x < i {
                assert(code_rank(a[x]) < code_rank(a[y - 1]));
            } else if x > i {
                assert(code_rank(a[x - 1]) < code_rank(a[y - 1]));
            } else if x == i {
                assert(code_rank(a[i as int]) <= code_rank(a[y - 1]));
            }
        }
        assert forall|d: ObsCode| #[trigger] b.contains(d) <==> d == c || a.contains(d) by {
            if a.contains(d) {
                let j = choose|j: int| 0 <= j < a.len() && a[j] == d;
                if j < i {
                    assert(b[j] == d);
                } else {
                    assert(b[j + 1] == d);
                }
            }
            if d == c {
                assert(b[i as int] == c);
            }
            if b.contains(d) && d != c {
                let j = choose|j: int| 0 <= j < b.len() && b[j] == d;
                if j < i {
                    assert(a[j] == d);
                } else {
                    assert(a[j - 1] == d);
                }
            }
        }
    }
}

/// Sets the channel of a satellite.
pub fn set_frq(l: &mut Vec<(SatId, i8)>, sat: SatId, n: i8)
    requires
        frq_sorted(old(l)@),
    ensures
        frq_sorted(final(l)@),
        forall|s: SatId, m: i8| #[trigger]
            final(l)@.contains((s, m)) <==> (if s == sat {
                m == n
            } else {
                old(l)@.contains((s, m))
            }),
{
    let ghost a = l@;
    let key: u64 = sat_code(sat);
    let mut i: usize = 0;
    while i < l.len() && sat_code(l[i].0) < key
        invariant
            i <= l@.len(),
            l@ == a,
            key == sat_number(sat),
            forall|j: int| 0 <= j < i ==> sat_number((#[trigger] l@[j]).0) < key,
        decreases l@.len() - i,
    {
        i += 1;
    }
    if i < l.len() && l[i].0 == sat {
        l.set(i, (sat, n));
        proof {
            let b = l@;
            assert forall|s: SatId, m: i8| #[trigger] b.contains((s, m)) <==> (if s == sat {
                m == n
            } else {
                a.contains((s, m))
            }) by {
                assert(b[i as int] == (sat, n));
                if b.contains((s, m)) {
                    let j = choose|j: int| 0 <= j < b.len() && b[j] == (s, m);
                    if j != i {
                        assert(a[j] == (s, m));
                        assert(sat_number(a[j].0) != sat_number(a[i as int].0));
                    }
                }
                if s != sat && a.contains((s, m)) {
                    let j = choose|j: int| 0 <= j < a.len() && a[j] == (s, m);
                    assert(b[j] == (s, m));
                }
            }
        }
        return;
    }
    proof {
        if i < a.len() && sat_number(a[i as int].0) == key {
            lemma_sat_number_unique(a[i as int].0, sat);
        }
    }
    l.insert(i, (sat, n));
    proof {
        let b = l@;
        assert(b == a.insert(i as int, (sat, n)));
        assert forall|x: int, y: int| 0 <= x < y < b.len() implies sat_number((#[trigger] b[x]).0)
            < sat_number((#[trigger] b[y]).0) by {
            if y > i && x < i {
                assert(sat_number(a[x].0) < sat_number(a[y - 1].0));
            } else if x > i {
                assert(sat_number(a[x - 1].0) < sat_number(a[y - 1].0));
            } else if x == i {
                assert(sat_number(a[i as int].0) <= sat_number(a[y - 1].0));
            }
        }
        assert forall|s: SatId, m: i8| #[trigger] b.contains((s, m)) <==> (if s == sat {
            m == n
        } else {
            a.contains((s, m))
        }) by {
            assert(b[i as int] == (sat, n));
            if b.contains((s, m)) {
                let j = choose|j: int| 0 <= j < b.len() && b[j] == (s, m);
                if j < i {
                    assert(a[j] == (s, m));
                } else if j > i {
                    assert(a[j - 1] == (s, m));
                    assert(sat_number(b[i as int].0) < sat_number(b[j].0));
                }
            }
            if s != sat && a.contains((s, m)) {
                let j = choose|j: int| 0 <= j < a.len() && a[j] == (s, m);
                if j < i {
                    assert(b[j] == (s, m));
                } else {
                    assert(b[j + 1] == (s, m));
                }
            }
        }
    }
}

pub proof fn lemma_field_index<F>(fields: Seq<(ObsCode, ObsField<F>)>, code: ObsCode, i: int)
    requires
        0 <= i <= fields.len(),
        forall|j: int| 0 <= j < i ==> (#[trigger] fields[j]).0 != code,
        i < fields.len() ==> fields[i].0 == code,
    ensures
        field_index(fields, code) == i,
    decreases fields.len(),
{
    if i > 0 {
        assert(fields[0].0 != code);
        lemma_field_index(fields.skip(1), code, i - 1);
    }
}

/// Finds the field of a code.
pub fn find_field<F: Copy>(fields: &[(ObsCode, ObsField<F>)], code: ObsCode) -> (r: Option<
    ObsField<F>,
>)
    ensures
        r == field_of(fields@, code),
{
    let mut i: usize = 0;
    while i < fields.len()
        invariant
            i <= fields@.len(),
            forall|j: int| 0 <= j < i ==> (#[trigger] fields@[j]).0 != code,
        decreases fields@.len() - i,
    {
        if fields[i].0 == code {
            proof {
                lemma_field_index(fields@, code, i as int);
            }
            return Some(fields[i].1);
        }
        i += 1;
    }
    proof {
        lemma_field_index(fields@, code, i as int);
    }
    None
}

/// Adds a field, unless its code is there.
fn add_obs_field<F: Copy>(dst: &mut Vec<(ObsCode, ObsField<F>)>, code: ObsCode, val: Option<F>, lli: u8)
    ensures
        final(dst)@ == with_fields(old(dst)@, seq![(code, ObsField { val, lli })]),
{
    proof {
        let more = seq![(code, ObsField { val, lli })];
        assert(more.drop_last() =~= Seq::empty());
        reveal_with_fuel(with_fields, 2);
    }
    if find_field(dst.as_slice(), code).is_none() {
        dst.push((code, ObsField { val, lli }));
    }
}

proof fn lemma_with_fields_join<F>(
    fields: Seq<(ObsCode, ObsField<F>)>,
    a: Seq<(ObsCode, ObsField<F>)>,
    b: Seq<(ObsCode, ObsField<F>)>,
)
    ensures
        with_fields(with_fields(fields, a), b) == with_fields(fields, a + b),
    decreases b.len(),
{
    if b.len() == 0 {
        assert(a + b =~= a);
    } else {
        lemma_with_fields_join(fields, a, b.drop_last());
        assert((a + b).drop_last() =~= a + b.drop_last());
    }
}

/// Adds the fields of an observation.
pub fn add_signal_observation<F: Copy>(
    dst: &mut Vec<(ObsCode, ObsField<F>)>,
    o: &SignalObservation<F, F>,
    arc_changed: bool,
)
    ensures
        final(dst)@ == with_fields(old(dst)@, fields_of(o.sig, o.v, arc_changed)),
{
    let ghost d0 = dst@;
    let lli: u8 = o.v.rinex_lli(arc_changed);
    let ghost none = Seq::<(ObsCode, ObsField<F>)>::empty();
    let ghost code = match o.v.pr {
        Some(x) => seq![(obs_code(o.sig, TYPE_CODE), ObsField { val: Some(x), lli: 0u8 })],
        None => none,
    };
    let ghost phase = if o.v.cp is Some || lli != 0 {
        seq![(obs_code(o.sig, TYPE_PHASE), ObsField { val: o.v.cp, lli })]
    } else {
        none
    };
    let ghost doppler = match o.v.dop {
        Some(x) => seq![(obs_code(o.sig, TYPE_DOPPLER), ObsField { val: Some(x), lli: 0u8 })],
        None => none,
    };
    let ghost strength = match o.v.cn0 {
        Some(x) => seq![
            (obs_code(o.sig, TYPE_SIGNAL_STRENGTH), ObsField { val: Some(x), lli: 0u8 }),
        ],
        None => none,
    };
    if o.v.pr.is_some() {
        add_obs_field(dst, o.sig.code(TYPE_CODE), o.v.pr, 0);
    }
    assert(dst@ == with_fields(d0, code));
    if o.v.cp.is_some() || lli != 0 {
        add_obs_field(dst, o.sig.code(TYPE_PHASE), o.v.cp, lli);
    }
    assert(dst@ == with_fields(with_fields(d0, code), phase));
    if o.v.dop.is_some() {
        add_obs_field(dst, o.sig.code(TYPE_DOPPLER), o.v.dop, 0);
    }
    assert(dst@ == with_fields(with_fields(with_fields(d0, code), phase), doppler));
    if o.v.cn0.is_some() {
        add_obs_field(dst, o.sig.code(TYPE_SIGNAL_STRENGTH), o.v.cn0, 0);
    }
    proof {
        lemma_with_fields_join(d0, code, phase);
        lemma_with_fields_join(d0, code + phase, doppler);
        lemma_with_fields_join(d0, code + phase + doppler, strength);
    }
}

/// The codes under which an observation has something to write.
pub fn writer_codes<F, G>(o: &SignalObservation<F, G>, arc_changed: bool) -> (r: [Option<
    ObsCode,
>; 4])
    ensures
        r@[0] == used_code(o.sig, o.v, arc_changed, TYPE_CODE),
        r@[1] == used_code(o.sig, o.v, arc_changed, TYPE_PHASE),
        r@[2] == used_code(o.sig, o.v, arc_changed, TYPE_DOPPLER),
        r@[3] == used_code(o.sig, o.v, arc_changed, TYPE_SIGNAL_STRENGTH),
{
    let code = if o.v.pr.is_some() {
        Some(o.sig.code(TYPE_CODE))
    } else {
        None
    };
    let phase = if o.v.pr.is_some() || o.v.cp.is_some() || o.v.dop.is_some() || o.v.cn0.is_some()
        || o.v.rinex_lli(arc_changed) != 0 {
        Some(o.sig.code(TYPE_PHASE))
    } else {
        None
    };
    let doppler = if o.v.dop.is_some() {
        Some(o.sig.code(TYPE_DOPPLER))
    } else {
        None
    };
    let strength = if o.v.cn0.is_some() {
        Some(o.sig.code(TYPE_SIGNAL_STRENGTH))
    } else {
        None
    };
    [code, phase, doppler, strength]
}

/// The code of a type, if there is something to write under it.
pub open spec fn used_code<F, G>(
    sig: SigId,
    v: SignalValues<F, G>,
    changed: bool,
    typ: u8,
) -> Option<ObsCode> {
    if writes(v, changed, typ) {
        Some(obs_code(sig, typ))
    } else {
        None
    }
}

/// Whether code lists are in order and of known types.
spec fn lists_ok(codes: Seq<Vec<ObsCode>>) -> bool {
    &&& codes.len() == 7
    &&& forall|k: int| 0 <= k < 7 ==> codes_distinct((#[trigger] codes[k])@)
    &&& forall|k: int, i: int|
        0 <= k < 7 && 0 <= i < codes[k]@.len() ==> known_type(#[trigger] codes[k]@[i])
}

/// Adds the codes of an observation to those of its system.
fn add_writer_codes<F, G>(
    codes: &mut Vec<Vec<ObsCode>>,
    o: &SignalObservation<F, G>,
    arc_changed: bool,
)
    requires
        lists_ok(old(codes)@),
        sat_valid(o.sat.0@),
    ensures
        lists_ok(final(codes)@),
        forall|k: int, c: ObsCode|
            0 <= k < 7 ==> (#[trigger] final(codes)@[k]@.contains(c) <==> old(codes)@[k]@.contains(c)
                || (k == system_rank(o.sat.0@[0]) && code_signal(c) == o.sig && writes(
                o.v,
                arc_changed,
                c.0@[0],
            ))),
{
    let k: usize = system_index(o.system());
    let used = writer_codes(o, arc_changed);
    let ghost before = codes@;
    let mut l: Vec<ObsCode> = Vec::new();
    std::mem::swap(&mut l, &mut codes[k]);
    assert(l@ == before[k as int]@);
    assert(codes_distinct(before[k as int]@));
    assert(forall|i: int| 0 <= i < l@.len() ==> known_type(#[trigger] before[k as int]@[i]));
    let mut i: usize = 0;
    while i < 4
        invariant
            0 <= i <= 4,
            0 <= k < 7,
            used@.len() == 4,
            codes_distinct(l@),
            forall|j: int| 0 <= j < l@.len() ==> known_type(#[trigger] l@[j]),
            forall|j: int| 0 <= j < 4 && used@[j] is Some ==> known_type((#[trigger] used@[j])->0),
            forall|c: ObsCode| #[trigger]
                l@.contains(c) <==> before[k as int]@.contains(c) || exists|j: int|
                    0 <= j < i && #[trigger] used@[j] == Some(c),
        decreases 4 - i,
    {
        let ghost l0 = l@;
        if let Some(c) = used[i] {
            insert_code(&mut l, c);
        }
        i += 1;
        assert forall|c: ObsCode| #[trigger]
            l@.contains(c) <==> before[k as int]@.contains(c) || exists|j: int|
                0 <= j < i && #[trigger] used@[j] == Some(c) by {
            assert(l0.contains(c) <==> before[k as int]@.contains(c) || exists|j: int|
                0 <= j < i - 1 && #[trigger] used@[j] == Some(c));
            if used@[i - 1] == Some(c) {
                assert(0 <= i - 1 < i);
            }
        }
    }
    std::mem::swap(&mut l, &mut codes[k]);
    proof {
        let after = codes@;
        assert forall|q: int, c: ObsCode| 0 <= q < 7 implies (#[trigger] after[q]@.contains(c)
            <==> before[q]@.contains(c) || (q == system_rank(o.sat.0@[0]) && code_signal(c)
            == o.sig && writes(o.v, arc_changed, c.0@[0]))) by {
            if q == k {
                lemma_code_parts(o.sig, TYPE_CODE);
                lemma_code_parts(o.sig, TYPE_PHASE);
                lemma_code_parts(o.sig, TYPE_DOPPLER);
                lemma_code_parts(o.sig, TYPE_SIGNAL_STRENGTH);
                if code_signal(c) == o.sig && writes(o.v, arc_changed, c.0@[0]) {
                    assert(c.0 =~= obs_code(o.sig, c.0@[0]).0) by {
                        assert(code_signal(c).0@[0] == c.0@[1]);
                        assert(code_signal(c).0@[1] == c.0@[2]);
                    }
                    assert(used@[0] == Some(c) || used@[1] == Some(c) || used@[2] == Some(c)
                        || used@[3] == Some(c));
                }
            } else {
                assert(after[q] == before[q]);
            }
        }
    }
}

proof fn lemma_record_index<F>(sats: Seq<SatRecordView<F>>, sat: SatId, i: int)
    requires
        0 <= i <= sats.len(),
        forall|j: int| 0 <= j < i ==> (#[trigger] sats[j]).sat != sat,
        i < sats.len() ==> sats[i].sat == sat,
    ensures
        record_index(sats, sat) == i,
    decreases sats.len(),
{
    if i > 0 {
        assert(sats[0].sat != sat);
        lemma_record_index(sats.skip(1), sat, i - 1);
    }
}

/// Adds an observation to the records of its epoch.
fn add_to_records<F: Copy>(
    sats: &mut Vec<SatRecord<F>>,
    o: &SignalObservation<F, F>,
    arc_changed: bool,
)
    ensures
        records(final(sats)@) == with_record(
            records(old(sats)@),
            o.sat,
            fields_of(o.sig, o.v, arc_changed),
        ),
{
    let ghost before = sats@;
    let mut i: usize = 0;
    while i < sats.len() && !(sats[i].sat == o.sat)
        invariant
            i <= sats@.len(),
            sats@ == before,
            forall|j: int| 0 <= j < i ==> (#[trigger] records(before)[j]).sat != o.sat,
        decreases sats@.len() - i,
    {
        i += 1;
    }
    proof {
        lemma_record_index(records(before), o.sat, i as int);
    }
    if i < sats.len() {
        let mut fields: Vec<(ObsCode, ObsField<F>)> = Vec::new();
        std::mem::swap(&mut fields, &mut sats[i].fields);
        add_signal_observation(&mut fields, o, arc_changed);
        sats[i].fields = fields;
    } else {
        let mut fields: Vec<(ObsCode, ObsField<F>)> = Vec::new();
        add_signal_observation(&mut fields, o, arc_changed);
        sats.push(SatRecord { sat: o.sat, fields });
    }
    assert(records(sats@) =~= with_record(
        records(before),
        o.sat,
        fields_of(o.sig, o.v, arc_changed),
    ));
}

/// Adds an observation to the epochs before it.
fn add_to_epochs<F: Copy>(
    epochs: &mut Vec<Epoch<F>>,
    o: &SignalObservation<F, F>,
    arc_changed: bool,
)
    ensures
        epoch_views(final(epochs)@) == with_epoch(
            epoch_views(old(epochs)@),
            o.t,
            o.sat,
            fields_of(o.sig, o.v, arc_changed),
        ),
{
    let ghost before = epochs@;
    let n: usize = epochs.len();
    if n > 0 && epochs[n - 1].t.0 == o.t.0 {
        let mut sats: Vec<SatRecord<F>> = Vec::new();
        std::mem::swap(&mut sats, &mut epochs[n - 1].sats);
        add_to_records(&mut sats, o, arc_changed);
        epochs[n - 1].sats = sats;
    } else {
        let mut sats: Vec<SatRecord<F>> = Vec::new();
        add_to_records(&mut sats, o, arc_changed);
        assert(records(Seq::<SatRecord<F>>::empty()) =~= Seq::empty());
        epochs.push(Epoch { t: o.t, sats });
    }
    assert(epoch_views(epochs@) =~= with_epoch(
        epoch_views(before),
        o.t,
        o.sat,
        fields_of(o.sig, o.v, arc_changed),
    ));
}

/// Where the first observation with an invalid satellite or signal stands; the
/// number of observations where all are valid.
pub open spec fn first_invalid<F, G>(os: Seq<SignalObservation<F, G>>) -> int
    decreases os.len(),
{
    if os.len() == 0 || !ids_valid(os[0]) {
        0
    } else {
        1 + first_invalid(os.skip(1))
    }
}

pub proof fn lemma_first_invalid<F, G>(os: Seq<SignalObservation<F, G>>, n: int)
    requires
        0 <= n <= os.len(),
        forall|i: int| 0 <= i < n ==> ids_valid(#[trigger] os[i]),
        n < os.len() ==> !ids_valid(os[n]),
    ensures
        first_invalid(os) == n,
    decreases os.len(),
{
    if n > 0 {
        assert(ids_valid(os[0]));
        lemma_first_invalid(os.skip(1), n - 1);
    }
}

/// What becomes of observations that stand in the order of time as `s`: the
/// file, or what is said of the first that is invalid.
pub open spec fn built<F>(
    s: Seq<SignalObservation<F, F>>,
    r: std::result::Result<ObsFile<F>, String>,
) -> bool {
    let bad = first_invalid(s);
    match r {
        Ok(f) => bad == s.len() && file_of(s, f),
        Err(e) => bad < s.len() && e@ == id_error(s[bad]),
    }
}

pub(crate) fn copied<F: Copy>(obs: &[SignalObservation<F, F>]) -> (r: Vec<SignalObservation<F, F>>)
    ensures
        r@ == obs@,
{
    let mut out: Vec<SignalObservation<F, F>> = Vec::new();
    let mut i: usize = 0;
    while i < obs.len()
        invariant
            i <= obs@.len(),
            out@ == obs@.take(i as int),
        decreases obs@.len() - i,
    {
        out.push(obs[i]);
        i += 1;
        assert(obs@.take(i as int) =~= obs@.take(i - 1).push(obs@[i - 1]));
    }
    assert(obs@.take(i as int) =~= obs@);
    out
}

proof fn lemma_code_used_step<F, G>(
    s: Seq<SignalObservation<F, G>>,
    n: int,
    k: int,
    c: ObsCode,
)
    requires
        0 <= n < s.len(),
    ensures
        code_used(s.take(n + 1), k, c) <==> code_used(s.take(n), k, c) || (system_rank(
            s[n].sat.0@[0],
        ) == k && code_signal(c) == s[n].sig && writes(
            s[n].v,
            slipped(s.take(n + 1)),
            c.0@[0],
        )),
{
    let a = s.take(n);
    let b = s.take(n + 1);
    assert forall|i: int| 0 <= i < n implies #[trigger] a.take(i + 1) == b.take(i + 1) by {
        assert(a.take(i + 1) =~= b.take(i + 1));
    }
    assert(b.take(n + 1) =~= b);
    if code_used(a, k, c) {
        let i = choose|i: int|
            {
                &&& 0 <= i < a.len()
                &&& system_rank((#[trigger] a[i]).sat.0@[0]) == k
                &&& code_signal(c) == a[i].sig
                &&& writes(a[i].v, slipped(a.take(i + 1)), c.0@[0])
            };
        assert(b[i] == a[i]);
        assert(a.take(i + 1) == b.take(i + 1));
    }
    if code_used(b, k, c) {
        let i = choose|i: int|
            {
                &&& 0 <= i < b.len()
                &&& system_rank((#[trigger] b[i]).sat.0@[0]) == k
                &&& code_signal(c) == b[i].sig
                &&& writes(b[i].v, slipped(b.take(i + 1)), c.0@[0])
            };
        if i < n {
            assert(b[i] == a[i]);
            assert(a.take(i + 1) == b.take(i + 1));
        }
    }
    assert(b[n] == s[n]);
}

/// Groups observations into the epochs of a file, with the codes of each system
/// and the frequency channels.
pub fn build_obs_file<F: Copy>(obs: &[SignalObservation<F, F>]) -> (r: std::result::Result<
    ObsFile<F>,
    String,
>)
    ensures
        obs@.len() == 0 ==> (r matches Err(e) && e@ == "rinex: no observations"@),
        obs@.len() > 0 ==> exists|s: Seq<SignalObservation<F, F>>| #[trigger]
            in_time_order(obs@, s) && built(s, r),
{
    if obs.len() == 0 {
        return Err("rinex: no observations".to_owned());
    }
    let mut sorted: Vec<SignalObservation<F, F>> = copied(obs);
    sort_by_time(&mut sorted);
    let ghost s = sorted@;
    assert(in_time_order(obs@, s));
    let mut codes: Vec<Vec<ObsCode>> = Vec::new();
    let mut k: usize = 0;
    while k < 7
        invariant
            k <= 7,
            codes@.len() == k,
            forall|j: int| 0 <= j < k ==> (#[trigger] codes@[j])@.len() == 0,
        decreases 7 - k,
    {
        codes.push(Vec::new());
        k += 1;
    }
    let mut epochs: Vec<Epoch<F>> = Vec::new();
    let mut frq: Vec<(SatId, i8)> = Vec::new();
    let mut arc = ArcToLl::new();
    let mut n: usize = 0;
    assert(epoch_views(epochs@) =~= epochs_of(s.take(0)));
    assert forall|q: int, c: ObsCode| 0 <= q < 7 implies (#[trigger] codes@[q]@.contains(c)
        <==> code_used(s.take(0), q, c)) by {}
    while n < sorted.len()
        invariant
            n <= s.len(),
            s.len() > 0,
            sorted@ == s,
            in_time_order(obs@, s),
            obs@.len() > 0,
            forall|i: int| 0 <= i < n ==> ids_valid(#[trigger] s[i]),
            lists_ok(codes@),
            forall|q: int, c: ObsCode|
                0 <= q < 7 ==> (#[trigger] codes@[q]@.contains(c) <==> code_used(
                    s.take(n as int),
                    q,
                    c,
                )),
            epoch_views(epochs@) == epochs_of(s.take(n as int)),
            frq_listed(s.take(n as int), frq@),
            forall|key: SignalKey| #[trigger]
                arc.previous(key) == last_arc(s.take(n as int), key),
        decreases s.len() - n,
    {
        let o = sorted[n];
        if !o.sat.is_valid() {
            let name = o.sat.as_str();
            proof {
                encode_utf8_decode_utf8(name@);
                lemma_first_invalid(s, n as int);
            }
            return Err(with_quoted("rinex: invalid satellite ", name));
        }
        if !o.sig.is_valid() {
            let name = o.sig.as_str();
            proof {
                encode_utf8_decode_utf8(name@);
                lemma_first_invalid(s, n as int);
            }
            return Err(with_quoted("rinex: invalid signal ", name));
        }
        let ghost a = s.take(n as int);
        let ghost b = s.take(n + 1);
        proof {
            assert(b.drop_last() =~= a);
            assert(b.last() == o);
        }
        if let Some(v) = o.v.frq {
            set_frq(&mut frq, o.sat, v);
        }
        assert(frq_listed(b, frq@));
        let changed = arc.lli(SignalKey { sat: o.sat, sig: o.sig }, o.v.arc);
        assert(changed == slipped(b));
        add_to_epochs(&mut epochs, &o, changed);
        let ghost codes0 = codes@;
        add_writer_codes(&mut codes, &o, changed);
        proof {
            assert forall|q: int, c: ObsCode| 0 <= q < 7 implies (#[trigger] codes@[q]@.contains(c)
                <==> code_used(b, q, c)) by {
                lemma_code_used_step(s, n as int, q, c);
                assert(codes0[q]@.contains(c) <==> code_used(a, q, c));
            }
            assert forall|key: SignalKey| #[trigger] arc.previous(key) == last_arc(b, key) by {
                if key != o.key() {
                    assert(last_arc(a, key) == last_arc(b, key));
                }
            }
        }
        n += 1;
    }
    assert(s.take(n as int) =~= s);
    proof {
        lemma_first_invalid(s, n as int);
        let lists = code_lists(codes@);
        assert forall|q: int, c: ObsCode| 0 <= q < 7 implies (#[trigger] lists[q].contains(c)
            <==> code_used(s, q, c)) by {
            assert(lists[q] == codes@[q]@);
        }
        assert(codes_listed(s, lists));
    }
    let first = sorted[0].t;
    let last = sorted[sorted.len() - 1].t;
    Ok(ObsFile { codes, epochs, frq, first, last })
}

} // verus!
