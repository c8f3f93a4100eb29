//! Observations for a RINEX library that owns the on-disk format: what goes into
//! its epoch-keyed record, and what comes out of it. The loss-of-lock indicator is
//! derived from `arc` transitions on the way in, and `arc` is counted from it on
//! the way out.

use crate::arc::{last_arc, next_arc, ArcToLl};
use crate::keymap::{fx_get, fx_insert, fx_value};
use crate::obs::{
    id_text, key_number, no_values, with_lli, GpsTime, ObsCode, SatId, SigId, SignalKey,
    SignalObservation, SignalValues,
};
use crate::rinexobs::{
    add_signal_observation, copied, fields_of, frq_listed, in_time_order, set_frq, slipped,
    sort_by_time, ObsField,
};
use crate::text::{parse_uint, uint_text, utf8, within};
use rustc_hash::FxHashMap;
use std::str::FromStr;
use vstd::prelude::*;
use vstd::slice::slice_subrange;
use vstd::utf8::{decode_utf8, encode_utf8_decode_utf8};

verus! {

// ---- writing ----

/// Whether a text begins with a character of one byte.
pub open spec fn has_letter(sat: Seq<char>) -> bool {
    sat.len() > 0 && sat[0] <= '\u{7f}'
}

/// The constellation that the `rinex` crate finds a satellite in.
pub uninterp spec fn constellation_of(sat: Seq<char>) -> Option<Seq<char>>;

/// `rinex::prelude::SV::from_str`: the name of the constellation that a satellite
/// identifier is read as, nothing where it cannot be read. Geostationary
/// satellites are looked up in a table, so that the name may be that of one of
/// the augmentation systems. The first byte is taken for the letter of the
/// constellation, so that it must be a character of its own.
#[verifier::external_body]
fn constellation(sat: &str) -> (r: Option<String>)
    requires
        has_letter(sat@),
    ensures
        match r {
            Some(name) => constellation_of(sat@) == Some(name@),
            None => constellation_of(sat@) is None,
        },
{
    match rinex::prelude::SV::from_str(sat) {
        Ok(sv) => Some(sv.constellation.to_string()),
        Err(_) => None,
    }
}

/// One value of a record: a blank one carries only its indicator, and an
/// indicator of 0 is none.
#[derive(Clone, Copy)]
pub struct Signal<F> {
    pub t: GpsTime,
    pub sat: SatId,
    pub code: ObsCode,
    pub val: Option<F>,
    pub lli: u8,
}

/// What goes into a record and its header.
pub struct Plan<F> {
    pub signals: Vec<Signal<F>>,
    /// The codes of each constellation.
    pub codes: Vec<(String, Vec<ObsCode>)>,
    /// The frequency channels.
    pub channels: Vec<(SatId, i8)>,
    pub first: GpsTime,
    pub last: GpsTime,
}

/// The identifier of a satellite as text.
pub open spec fn sat_text(sat: SatId) -> Seq<char> {
    decode_utf8(id_text(sat.0@))
}

/// Whether a satellite belongs to a constellation.
pub open spec fn is_known(sat: SatId) -> bool {
    has_letter(sat_text(sat)) && constellation_of(sat_text(sat)) is Some
}

/// A field of an observation as a value of a record.
pub open spec fn as_signal<F>(t: GpsTime, sat: SatId, f: (ObsCode, ObsField<F>)) -> Signal<F> {
    Signal { t, sat, code: f.0, val: f.1.val, lli: f.1.lli }
}

/// The fields of an observation as values of a record.
pub open spec fn as_signals<F>(
    t: GpsTime,
    sat: SatId,
    fields: Seq<(ObsCode, ObsField<F>)>,
) -> Seq<Signal<F>> {
    fields.map_values(|f: (ObsCode, ObsField<F>)| as_signal(t, sat, f))
}

/// The values of observations in the order of time.
pub open spec fn signals_of<F>(os: Seq<SignalObservation<F, F>>) -> Seq<Signal<F>>
    decreases os.len(),
{
    if os.len() == 0 {
        Seq::empty()
    } else {
        let o = os.last();
        signals_of(os.drop_last()) + as_signals(o.t, o.sat, fields_of(o.sig, o.v, slipped(os)))
    }
}

/// Where a constellation stands among groups; their number where it does not.
pub open spec fn group_index(groups: Seq<(Seq<char>, Seq<ObsCode>)>, name: Seq<char>) -> int
    decreases groups.len(),
{
    if groups.len() == 0 || groups[0].0 == name {
        0
    } else {
        1 + group_index(groups.skip(1), name)
    }
}

/// A list with a code at its end, unless it is there.
pub open spec fn with_code(l: Seq<ObsCode>, c: ObsCode) -> Seq<ObsCode> {
    if l.contains(c) {
        l
    } else {
        l.push(c)
    }
}

/// Groups with a code of a constellation.
pub open spec fn with_group(
    groups: Seq<(Seq<char>, Seq<ObsCode>)>,
    name: Seq<char>,
    c: ObsCode,
) -> Seq<(Seq<char>, Seq<ObsCode>)> {
    let k = group_index(groups, name);
    if k < groups.len() {
        groups.update(k, (name, with_code(groups[k].1, c)))
    } else {
        groups.push((name, seq![c]))
    }
}

/// The codes of values, by constellation, in the order in which they are met.
pub open spec fn groups_of<F>(signals: Seq<Signal<F>>) -> Seq<(Seq<char>, Seq<ObsCode>)>
    decreases signals.len(),
{
    if signals.len() == 0 {
        Seq::empty()
    } else {
        let s = signals.last();
        with_group(groups_of(signals.drop_last()), constellation_of(sat_text(s.sat))->0, s.code)
    }
}

/// The contents of groups.
pub open spec fn group_views(v: Seq<(String, Vec<ObsCode>)>) -> Seq<(Seq<char>, Seq<ObsCode>)> {
    v.map_values(|g: (String, Vec<ObsCode>)| (g.0@, g.1@))
}

/// Where the first satellite that is in no constellation stands; the number of
/// observations where there is none.
pub open spec fn first_unknown<F>(os: Seq<SignalObservation<F, F>>) -> int
    decreases os.len(),
{
    if os.len() == 0 || !is_known(os[0].sat) {
        0
    } else {
        1 + first_unknown(os.skip(1))
    }
}

/// What becomes of observations that stand in the order of time as `s`.
pub open spec fn planned<F>(s: Seq<SignalObservation<F, F>>, r: Result<Plan<F>, String>) -> bool {
    let bad = first_unknown(s);
    match r {
        Ok(p) => {
            &&& bad == s.len()
            &&& p.signals@ == signals_of(s)
            &&& group_views(p.codes@) == groups_of(signals_of(s))
            &&& frq_listed(s, p.channels@)
            &&& p.first == s.first().t
            &&& p.last == s.last().t
        },
        Err(e) => bad < s.len() && e@ == "invalid satellite "@ + sat_text(s[bad].sat),
    }
}

proof fn lemma_first_unknown<F>(os: Seq<SignalObservation<F, F>>, n: int)
    requires
        0 <= n <= os.len(),
        forall|i: int|
            0 <= i < n ==> is_known((#[trigger] os[i]).sat),
        n < os.len() ==> !is_known(os[n].sat),
    ensures
        first_unknown(os) == n,
    decreases os.len(),
{
    if n > 0 {
        assert(is_known(os[0].sat));
        lemma_first_unknown(os.skip(1), n - 1);
    }
}

proof fn lemma_group_index(groups: Seq<(Seq<char>, Seq<ObsCode>)>, name: Seq<char>, i: int)
    requires
        0 <= i <= groups.len(),
        forall|j: int| 0 <= j < i ==> (#[trigger] groups[j]).0 != name,
        i < groups.len() ==> groups[i].0 == name,
    ensures
        group_index(groups, name) == i,
    decreases groups.len(),
{
    if i > 0 {
        assert(groups[0].0 != name);
        lemma_group_index(groups.skip(1), name, i - 1);
    }
}

fn has_code(l: &Vec<ObsCode>, c: ObsCode) -> (r: bool)
    ensures
        r == l@.contains(c),
{
    let mut i: usize = 0;
    while i < l.len()
        invariant
            i <= l@.len(),
            forall|j: int| 0 <= j < i ==> #[trigger] l@[j] != c,
        decreases l@.len() - i,
    {
        if l[i] == c {
            assert(l@[i as int] == c);
            return true;
        }
        i += 1;
    }
    false
}

fn add_group(groups: &mut Vec<(String, Vec<ObsCode>)>, name: &str, c: ObsCode)
    ensures
        group_views(final(groups)@) == with_group(group_views(old(groups)@), name@, c),
{
    let ghost before = groups@;
    let mut k: usize = 0;
    while k < groups.len() && !crate::diff::same_text(groups[k].0.as_str(), name)
        invariant
            k <= groups@.len(),
            groups@ == before,
            forall|j: int| 0 <= j < k ==> (#[trigger] group_views(before)[j]).0 != name@,
        decreases groups@.len() - k,
    {
        k += 1;
    }
    proof {
        if k < before.len() {
            assert(group_views(before)[k as int].0 == name@);
        }
        lemma_group_index(group_views(before), name@, k as int);
    }
    if k < groups.len() {
        let mut l: Vec<ObsCode> = Vec::new();
        std::mem::swap(&mut l, &mut groups[k].1);
        if !has_code(&l, c) {
            l.push(c);
        }
        groups[k].1 = l;
    } else {
        let mut l: Vec<ObsCode> = Vec::new();
        l.push(c);
        assert(l@ =~= seq![c]);
        groups.push((name.to_owned(), l));
    }
    assert(group_views(groups@) =~= with_group(group_views(before), name@, c));
}

/// Plans the record of observations: the values of each in the order of time, with
/// the codes of each constellation and the frequency channels.
pub fn plan_record<F: Copy>(obs: &[SignalObservation<F, F>]) -> (r: Result<Plan<F>, String>)
    ensures
        obs@.len() == 0 ==> (r matches Err(e) && e@ == "no observations"@),
        obs@.len() > 0 ==> exists|s: Seq<SignalObservation<F, F>>| #[trigger]
            in_time_order(obs@, s) && planned(s, r),
{
    if obs.len() == 0 {
        return Err("no observations".to_owned());
    }
    let mut sorted: Vec<SignalObservation<F, F>> = copied(obs);
    sort_by_time(&mut sorted);
    let ghost s = sorted@;
    assert(in_time_order(obs@, s));
    let mut signals: Vec<Signal<F>> = Vec::new();
    let mut codes: Vec<(String, Vec<ObsCode>)> = Vec::new();
    let mut channels: Vec<(SatId, i8)> = Vec::new();
    let mut arc = ArcToLl::new();
    let mut n: usize = 0;
    assert(signals@ =~= signals_of(s.take(0)));
    assert(group_views(codes@) =~= groups_of(signals@));
    while n < sorted.len()
        invariant
            n <= s.len(),
            s.len() > 0,
            obs@.len() > 0,
            sorted@ == s,
            in_time_order(obs@, s),
            forall|i: int|
                0 <= i < n ==> is_known((#[trigger] s[i]).sat),
            signals@ == signals_of(s.take(n as int)),
            group_views(codes@) == groups_of(signals@),
            frq_listed(s.take(n as int), channels@),
            forall|key: SignalKey| #[trigger]
                arc.previous(key) == last_arc(s.take(n as int), key),
        decreases s.len() - n,
    {
        let o = sorted[n];
        let sat = o.sat.as_str();
        proof {
            encode_utf8_decode_utf8(sat@);
        }
        let known = if sat.unicode_len() > 0 && sat.get_char(0) <= '\u{7f}' {
            constellation(sat)
        } else {
            None
        };
        let name = match known {
            Some(x) => x,
            None => {
                proof {
                    lemma_first_unknown(s, n as int);
                }
                return Err("invalid satellite ".to_owned().concat(sat));
            },
        };
        let ghost a = s.take(n as int);
        let ghost b = s.take(n + 1);
        proof {
            assert(b.drop_last() =~= a);
            assert(b.last() == o);
        }
        let changed = arc.lli(SignalKey { sat: o.sat, sig: o.sig }, o.v.arc);
        assert(changed == slipped(b));
        proof {
            assert forall|key: SignalKey| #[trigger] arc.previous(key) == last_arc(b, key) by {
                if key != o.key() {
                    assert(last_arc(a, key) == last_arc(b, key));
                }
            }
        }
        if let Some(v) = o.v.frq {
            set_frq(&mut channels, o.sat, v);
        }
        assert(frq_listed(b, channels@));
        let mut fields: Vec<(ObsCode, ObsField<F>)> = Vec::new();
        add_signal_observation(&mut fields, &o, changed);
        proof {
            crate::rinexobs::lemma_fields_distinct(o.sig, o.v, changed);
        }
        let ghost all = fields@;
        assert(all == fields_of(o.sig, o.v, changed));
        let ghost before = signals@;
        let mut j: usize = 0;
        assert(signals@ =~= before + as_signals(o.t, o.sat, all.take(0)));
        while j < fields.len()
            invariant
                j <= fields@.len(),
                fields@ == all,
                constellation_of(sat_text(o.sat)) == Some(name@),
                signals@ == before + as_signals(o.t, o.sat, all.take(j as int)),
                group_views(codes@) == groups_of(signals@),
            decreases fields@.len() - j,
        {
            let (code, field) = fields[j];
            let ghost before_push = signals@;
            signals.push(Signal { t: o.t, sat: o.sat, code, val: field.val, lli: field.lli });
            add_group(&mut codes, name.as_str(), code);
            proof {
                assert(signals@.drop_last() =~= before_push);
                assert(all.take(j + 1) =~= all.take(j as int).push(all[j as int]));
                assert(as_signals(o.t, o.sat, all.take(j + 1)) =~= as_signals(
                    o.t,
                    o.sat,
                    all.take(j as int),
                ).push(as_signal(o.t, o.sat, all[j as int])));
                assert(signals@ =~= before + as_signals(o.t, o.sat, all.take(j + 1)));
            }
            j += 1;
        }
        assert(all.take(j as int) =~= all);
        n += 1;
    }
    assert(s.take(n as int) =~= s);
    proof {
        lemma_first_unknown(s, n as int);
    }
    let first = sorted[0].t;
    let last = sorted[sorted.len() - 1].t;
    Ok(Plan { signals, codes, channels, first, last })
}

/// The numbers of a version such as `3.04`: 3 and 4 where they cannot be read.
pub open spec fn version_numbers(s: Seq<u8>) -> (int, int) {
    let i = crate::text::first_index(s, 0x2e);
    let rest = s.skip(i + 1);
    let minor = rest.take(crate::text::first_index(rest, 0x2e));
    (
        match within(uint_text(s.take(i)), 0, 255) {
            Some(n) => n,
            None => 3,
        },
        match within(uint_text(minor), 0, 255) {
            Some(n) if i < s.len() => n,
            _ => 4,
        },
    )
}

/// Reads the numbers of a version.
pub fn parse_version(s: &str) -> (r: (u8, u8))
    ensures
        r.0 == version_numbers(utf8(s@)).0,
        r.1 == version_numbers(utf8(s@)).1,
{
    let b = s.as_bytes();
    let i: usize = crate::text::find_byte(b, 0x2e);
    let head = slice_subrange(b, 0, i);
    assert(head@ =~= b@.take(i as int));
    let major: u8 = match parse_uint(head, 255) {
        Some(n) => n as u8,
        None => 3,
    };
    if i == b.len() {
        return (major, 4);
    }
    let rest = slice_subrange(b, i + 1, b.len());
    assert(rest@ =~= b@.skip(i + 1));
    let j: usize = crate::text::find_byte(rest, 0x2e);
    let part = slice_subrange(rest, 0, j);
    assert(part@ =~= rest@.take(j as int));
    let minor: u8 = match parse_uint(part, 255) {
        Some(n) => n as u8,
        None => 4,
    };
    (major, minor)
}

/// A text, nothing where it is empty.
pub fn non_empty(s: &str) -> (r: Option<String>)
    ensures
        match r {
            Some(x) => s@.len() > 0 && x@ == s@,
            None => s@.len() == 0,
        },
{
    if s.is_empty() {
        None
    } else {
        Some(s.to_owned())
    }
}

// ---- reading ----

/// What a value of a record measures.
#[derive(Clone, Copy, Debug, PartialEq, Eq, Structural)]
pub enum ObsKind {
    Code,
    Phase,
    Doppler,
    SignalStrength,
    Other,
}

/// One value that a record holds; its satellite and signal are not known where
/// they cannot be named here.
#[derive(Clone, Copy)]
pub struct RecordSignal<F, G> {
    pub sat: Option<SatId>,
    pub sig: Option<SigId>,
    pub kind: ObsKind,
    pub value: F,
    /// The value as a signal strength.
    pub strength: G,
    pub lli: Option<u8>,
}

/// The values of an epoch.
pub struct RecordEpoch<F, G> {
    pub t: GpsTime,
    pub signals: Vec<RecordSignal<F, G>>,
}

/// The contents of a [`RecordEpoch`].
#[verifier::ext_equal]
pub struct RecordEpochView<F, G> {
    pub t: GpsTime,
    pub signals: Seq<RecordSignal<F, G>>,
}

impl<F, G> View for RecordEpoch<F, G> {
    type V = RecordEpochView<F, G>;

    open spec fn view(&self) -> RecordEpochView<F, G> {
        RecordEpochView { t: self.t, signals: self.signals@ }
    }
}

/// The contents of epochs.
pub open spec fn record_views<F, G>(v: Seq<RecordEpoch<F, G>>) -> Seq<RecordEpochView<F, G>> {
    v.map_values(|e: RecordEpoch<F, G>| e@)
}

/// Values with one more value of a record.
pub open spec fn with_record_value<F, G>(
    v: SignalValues<F, G>,
    s: RecordSignal<F, G>,
) -> SignalValues<F, G> {
    match s.kind {
        ObsKind::Code => SignalValues { pr: Some(s.value), ..v },
        ObsKind::Phase => {
            let w = SignalValues { cp: Some(s.value), ..v };
            match s.lli {
                Some(n) => SignalValues { ll: v.ll, ..with_lli(w, n) },
                None => w,
            }
        },
        ObsKind::Doppler => SignalValues { dop: Some(s.value), ..v },
        ObsKind::SignalStrength => SignalValues { cn0: Some(s.strength), ..v },
        ObsKind::Other => v,
    }
}

/// Whether a value tells of a loss of lock: a phase whose indicator has bit 0.
pub open spec fn tells_slip<F, G>(s: RecordSignal<F, G>) -> bool {
    s.kind is Phase && (s.lli matches Some(n) && n % 2 == 1)
}

/// The satellite and signal of a value, where they are known.
pub open spec fn signal_key<F, G>(s: RecordSignal<F, G>) -> Option<SignalKey> {
    match (s.sat, s.sig) {
        (Some(sat), Some(sig)) => Some(SignalKey { sat, sig }),
        _ => None,
    }
}

/// Where the observation of a satellite and signal stands; the number of
/// observations where there is none.
pub open spec fn key_index<F, G>(os: Seq<SignalObservation<F, G>>, k: SignalKey) -> int
    decreases os.len(),
{
    if os.len() == 0 || os[0].key() == k {
        0
    } else {
        1 + key_index(os.skip(1), k)
    }
}

/// The observations of an epoch, one for each satellite and signal in the order
/// in which they are met.
pub open spec fn epoch_observations<F, G>(
    t: GpsTime,
    signals: Seq<RecordSignal<F, G>>,
) -> Seq<SignalObservation<F, G>>
    decreases signals.len(),
{
    if signals.len() == 0 {
        Seq::empty()
    } else {
        let before = epoch_observations(t, signals.drop_last());
        let s = signals.last();
        match signal_key(s) {
            None => before,
            Some(k) => {
                let i = key_index(before, k);
                if i < before.len() {
                    before.update(
                        i,
                        SignalObservation { v: with_record_value(before[i].v, s), ..before[i] },
                    )
                } else {
                    before.push(
                        SignalObservation {
                            t,
                            sat: k.sat,
                            sig: k.sig,
                            v: with_record_value(no_values(), s),
                        },
                    )
                }
            },
        }
    }
}

/// The losses of lock that were counted for a satellite and signal.
pub open spec fn counted(arcs: Map<u64, u32>, k: SignalKey) -> u32 {
    match fx_value(arcs, key_number(k)) {
        Some(n) => n,
        None => 0,
    }
}

/// The counts after the values of an epoch.
pub open spec fn counts_after<F, G>(
    arcs: Map<u64, u32>,
    signals: Seq<RecordSignal<F, G>>,
) -> Map<u64, u32>
    decreases signals.len(),
{
    if signals.len() == 0 {
        arcs
    } else {
        let before = counts_after(arcs, signals.drop_last());
        let s = signals.last();
        match signal_key(s) {
            Some(k) if tells_slip(s) => before.insert(key_number(k), next_arc(counted(before, k))),
            _ => before,
        }
    }
}

/// Observations with the counts as their `arc`.
pub open spec fn with_counts<F, G>(
    os: Seq<SignalObservation<F, G>>,
    arcs: Map<u64, u32>,
) -> Seq<SignalObservation<F, G>> {
    os.map_values(
        |o: SignalObservation<F, G>|
            SignalObservation {
                v: SignalValues { arc: counted(arcs, o.key()), ..o.v },
                ..o
            },
    )
}

/// The observations and the counts after epochs.
pub open spec fn record_observations<F, G>(epochs: Seq<RecordEpochView<F, G>>) -> (
    Seq<SignalObservation<F, G>>,
    Map<u64, u32>,
)
    decreases epochs.len(),
{
    if epochs.len() == 0 {
        (Seq::empty(), Map::empty())
    } else {
        let (os, arcs) = record_observations(epochs.drop_last());
        let e = epochs.last();
        let after = counts_after(arcs, e.signals);
        (os + with_counts(epoch_observations(e.t, e.signals), after), after)
    }
}

proof fn lemma_key_index<F, G>(os: Seq<SignalObservation<F, G>>, k: SignalKey, i: int)
    requires
        0 <= i <= os.len(),
        forall|j: int| 0 <= j < i ==> (#[trigger] os[j]).key() != k,
        i < os.len() ==> os[i].key() == k,
    ensures
        key_index(os, k) == i,
    decreases os.len(),
{
    if i > 0 {
        assert(os[0].key() != k);
        lemma_key_index(os.skip(1), k, i - 1);
    }
}

fn add_record_value<F: Copy, G: Copy>(v: &mut SignalValues<F, G>, s: &RecordSignal<F, G>)
    ensures
        *final(v) == with_record_value(*old(v), *s),
{
    match s.kind {
        ObsKind::Code => {
            v.pr = Some(s.value);
        },
        ObsKind::Phase => {
            v.cp = Some(s.value);
            if let Some(n) = s.lli {
                let ll: bool = v.ll;
                v.set_lli(n);
                v.ll = ll;
            }
        },
        ObsKind::Doppler => {
            v.dop = Some(s.value);
        },
        ObsKind::SignalStrength => {
            v.cn0 = Some(s.strength);
        },
        ObsKind::Other => {},
    }
}

fn group_epoch<F: Copy, G: Copy>(
    t: GpsTime,
    signals: &Vec<RecordSignal<F, G>>,
    arcs: &mut FxHashMap<u64, u32>,
) -> (r: Vec<SignalObservation<F, G>>)
    ensures
        r@ == epoch_observations(t, signals@),
        final(arcs)@ == counts_after(old(arcs)@, signals@),
{
    let mut os: Vec<SignalObservation<F, G>> = Vec::new();
    let ghost all = signals@;
    let mut i: usize = 0;
    assert(os@ =~= epoch_observations(t, all.take(0)));
    while i < signals.len()
        invariant
            i <= signals@.len(),
            all == signals@,
            os@ == epoch_observations(t, all.take(i as int)),
            arcs@ == counts_after(old(arcs)@, all.take(i as int)),
        decreases signals@.len() - i,
    {
        let s = signals[i];
        proof {
            assert(all.take(i + 1).drop_last() =~= all.take(i as int));
            assert(all.take(i + 1).last() == s);
        }
        if let (Some(sat), Some(sig)) = (s.sat, s.sig) {
            let k = SignalKey { sat, sig };
            if let (ObsKind::Phase, Some(n)) = (s.kind, s.lli) {
                if n % 2 == 1 {
                    let mut count: u32 = match fx_get(arcs, k.number()) {
                        Some(c) => c,
                        None => 0,
                    };
                    if count < u32::MAX {
                        count += 1;
                    }
                    fx_insert(arcs, k.number(), count);
                }
            }
            let mut j: usize = 0;
            while j < os.len() && !(os[j].sat == sat && os[j].sig == sig)
                invariant
                    j <= os@.len(),
                    k == (SignalKey { sat, sig }),
                    forall|q: int| 0 <= q < j ==> (#[trigger] os@[q]).key() != k,
                decreases os@.len() - j,
            {
                j += 1;
            }
            proof {
                lemma_key_index(os@, k, j as int);
            }
            if j == os.len() {
                let mut v: SignalValues<F, G> = SignalValues::default();
                add_record_value(&mut v, &s);
                os.push(SignalObservation { t, sat, sig, v });
            } else {
                let mut o = os[j];
                add_record_value(&mut o.v, &s);
                os.set(j, o);
            }
        }
        i += 1;
    }
    assert(all.take(i as int) =~= all);
    os
}

/// Makes observations of the epochs of a record.
pub fn observations_from_record<F: Copy, G: Copy>(epochs: &[RecordEpoch<F, G>]) -> (r: Vec<
    SignalObservation<F, G>,
>)
    ensures
        r@ == record_observations(record_views(epochs@)).0,
{
    let mut out: Vec<SignalObservation<F, G>> = Vec::new();
    let mut arcs: FxHashMap<u64, u32> = FxHashMap::default();
    let ghost all = record_views(epochs@);
    let mut i: usize = 0;
    assert(out@ =~= Seq::empty());
    assert(arcs@ =~= Map::empty());
    while i < epochs.len()
        invariant
            i <= epochs@.len(),
            all == record_views(epochs@),
            (out@, arcs@) == record_observations(all.take(i as int)),
        decreases epochs@.len() - i,
    {
        proof {
            assert(all.take(i + 1).drop_last() =~= all.take(i as int));
            assert(all.take(i + 1).last() == epochs@[i as int]@);
        }
        let os = group_epoch(epochs[i].t, &epochs[i].signals, &mut arcs);
        let ghost before = out@;
        let ghost counted_os = with_counts(os@, arcs@);
        let mut j: usize = 0;
        assert(out@ =~= before + counted_os.take(0));
        while j < os.len()
            invariant
                j <= os@.len(),
                counted_os == with_counts(os@, arcs@),
                out@ == before + counted_os.take(j as int),
            decreases os@.len() - j,
        {
            let mut o = os[j];
            let k = SignalKey { sat: o.sat, sig: o.sig };
            o.v.arc =
            match fx_get(&arcs, k.number()) {
                Some(n) => n,
                None => 0,
            };
            out.push(o);
            proof {
                assert(counted_os[j as int] == o);
                assert(counted_os.take(j + 1) =~= counted_os.take(j as int).push(o));
                assert(out@ =~= before + counted_os.take(j + 1));
            }
            j += 1;
        }
        assert(counted_os.take(j as int) =~= counted_os);
        i += 1;
    }
    assert(all.take(i as int) =~= all);
    out
}

} // verus!
