//! Which values of observations go into a record under which codes, what comes out of one, and
//! what a file spans.

use crate::arc::last_arc;
use crate::laws_rinex::list_of;
use crate::laws_stream::{comes_first, comes_last};
use crate::obs::{
    is_system, lemma_code_parts, lemma_key_number_unique, lli_of, no_values, obs_code, GpsTime,
    ObsCode, SigId, SignalKey, SignalObservation,
};
use crate::rinexio::{
    as_signals, counted, counts_after, epoch_observations, key_index, observations_from_record,
    plan_record, planned, record_observations, record_views, signals_of, with_counts,
    with_record_value, ObsKind, Plan, RecordEpoch, RecordSignal, Signal,
};
use crate::rinexobs::{
    build_obs_file, built, code_lists, code_rank, code_used, codes_distinct, fields_of, file_of,
    first_invalid, in_time_order, slipped, system_rank, writes, ObsField, ObsFile,
};
use vstd::prelude::*;

verus! {

// ---- writing ----

/// Whether a slip is told of an observation: its arc differs from the one before of its signal,
/// or is not 0 where it is the first.
pub open spec fn tells_slip<F>(s: Seq<SignalObservation<F, F>>, i: int) -> bool {
    ||| comes_first(s, i) && s[i].v.arc != 0
    ||| exists|j: int| #[trigger] comes_last(s, j, i) && s[j].v.arc != s[i].v.arc
}

/// The loss-of-lock indicator of an observation: 1 for a slip, 2 for the half-cycle ambiguity
/// and 4 for BOC tracking.
pub open spec fn indicator_of<F>(s: Seq<SignalObservation<F, F>>, i: int) -> int {
    (if tells_slip(s, i) { 1int } else { 0int }) + (if s[i].v.hc { 2int } else { 0int }) + (
    if s[i].v.bt { 4int } else { 0int })
}

/// Whether a value is that of observation `i` under the code with this letter.
pub open spec fn is_value<F>(
    s: Seq<SignalObservation<F, F>>,
    i: int,
    letter: u8,
    val: Option<F>,
    lli: int,
    v: Signal<F>,
) -> bool {
    &&& v.t == s[i].t && v.sat == s[i].sat
    &&& v.code.0@ == seq![letter, s[i].sig.0@[0], s[i].sig.0@[1]]
    &&& v.val == val && v.lli == lli
}

/// Whether a value is one of those of observation `i`: its range under `C`, its phase with the
/// indicator under `L`, its Doppler shift under `D` and its strength under `S`.
pub open spec fn is_of<F>(s: Seq<SignalObservation<F, F>>, i: int, v: Signal<F>) -> bool {
    ||| s[i].v.pr is Some && is_value(s, i, 0x43, s[i].v.pr, 0, v)
    ||| (s[i].v.cp is Some || indicator_of(s, i) != 0) && is_value(
        s,
        i,
        0x4c,
        s[i].v.cp,
        indicator_of(s, i),
        v,
    )
    ||| s[i].v.dop is Some && is_value(s, i, 0x44, s[i].v.dop, 0, v)
    ||| s[i].v.cn0 is Some && is_value(s, i, 0x53, s[i].v.cn0, 0, v)
}

/// Whether values hold one of observation `i` under a letter.
pub open spec fn has_value<F>(
    s: Seq<SignalObservation<F, F>>,
    i: int,
    letter: u8,
    val: Option<F>,
    lli: int,
    vs: Seq<Signal<F>>,
) -> bool {
    exists|k: int| 0 <= k < vs.len() && is_value(s, i, letter, val, lli, #[trigger] vs[k])
}

/// How many values the first `n` observations have.
pub open spec fn value_count<F>(s: Seq<SignalObservation<F, F>>, n: int) -> int
    decreases n,
{
    if n <= 0 {
        0
    } else {
        let o = s[n - 1].v;
        value_count(s, n - 1) + (if o.pr is Some { 1int } else { 0int }) + (if o.cp is Some
            || indicator_of(s, n - 1) != 0 { 1int } else { 0int }) + (if o.dop is Some {
            1int
        } else {
            0int
        }) + (if o.cn0 is Some { 1int } else { 0int })
    }
}

/// Whether values are those of the first `n` observations, each once.
pub open spec fn are_of<F>(
    s: Seq<SignalObservation<F, F>>,
    n: int,
    vs: Seq<Signal<F>>,
) -> bool {
    &&& vs.len() == value_count(s, n)
    &&& forall|k: int| 0 <= k < vs.len() ==> of_some(s, n, #[trigger] vs[k])
    &&& forall|i: int| 0 <= i < n ==> all_values(s, #[trigger] s[i], i, vs)
}

/// Whether a value is one of some of the first `n` observations.
pub open spec fn of_some<F>(s: Seq<SignalObservation<F, F>>, n: int, v: Signal<F>) -> bool {
    exists|i: int| 0 <= i < n && #[trigger] is_of(s, i, v)
}

/// Whether all values of observation `i` are there.
pub open spec fn all_values<F>(
    s: Seq<SignalObservation<F, F>>,
    o: SignalObservation<F, F>,
    i: int,
    vs: Seq<Signal<F>>,
) -> bool {
    &&& o.v.pr is Some ==> has_value(s, i, 0x43, o.v.pr, 0, vs)
    &&& o.v.cp is Some || indicator_of(s, i) != 0 ==> has_value(
        s,
        i,
        0x4c,
        o.v.cp,
        indicator_of(s, i),
        vs,
    )
    &&& o.v.dop is Some ==> has_value(s, i, 0x44, o.v.dop, 0, vs)
    &&& o.v.cn0 is Some ==> has_value(s, i, 0x53, o.v.cn0, 0, vs)
}

proof fn lemma_last_before<F>(s: Seq<SignalObservation<F, F>>, i: int, n: int)
    requires
        0 <= n <= i < s.len(),
        forall|k: int| n <= k < i ==> (#[trigger] s[k]).key() != s[i].key(),
    ensures
        match last_arc(s.take(n), s[i].key()) {
            None => comes_first(s, i),
            Some(a) => exists|j: int| #[trigger] comes_last(s, j, i) && s[j].v.arc == a,
        },
    decreases n,
{
    let k = s[i].key();
    if n > 0 {
        let p = s.take(n);
        assert(p.last() == s[n - 1]);
        assert(p.drop_last() =~= s.take(n - 1));
        if s[n - 1].key() == k {
            assert(comes_last(s, n - 1, i)) by {
                assert forall|l: int| n - 1 < l < i implies (#[trigger] s[l]).sat != s[i].sat
                    || s[l].sig != s[i].sig by {
                    assert(s[l].key() != k);
                }
            }
        } else {
            lemma_last_before(s, i, n - 1);
        }
    } else {
        assert forall|l: int| 0 <= l < i implies (#[trigger] s[l]).sat != s[i].sat || s[l].sig
            != s[i].sig by {
            assert(s[l].key() != k);
        }
    }
}

/// The slip that is told is that of the arc before.
proof fn lemma_slip<F>(s: Seq<SignalObservation<F, F>>, i: int)
    requires
        0 <= i < s.len(),
    ensures
        slipped(s.take(i + 1)) == tells_slip(s, i),
{
    let p = s.take(i + 1);
    assert(p.drop_last() =~= s.take(i));
    assert(p.last() == s[i]);
    lemma_last_before(s, i, i);
    assert forall|j: int, l: int| #[trigger]
        comes_last(s, j, i) && #[trigger] comes_last(s, l, i) implies j == l by {
        if j < l {
            assert(s[l].sat == s[i].sat);
        } else if l < j {
            assert(s[j].sat == s[i].sat);
        }
    }
    match last_arc(s.take(i), s[i].key()) {
        None => {
            assert forall|j: int| !#[trigger] comes_last(s, j, i) by {
                if comes_last(s, j, i) {
                    assert(s[j].sat != s[i].sat || s[j].sig != s[i].sig);
                }
            }
        },
        Some(a) => {
            let j = choose|j: int| #[trigger] comes_last(s, j, i) && s[j].v.arc == a;
            assert(!comes_first(s, i)) by {
                assert(s[j].sat == s[i].sat && s[j].sig == s[i].sig);
            }
        },
    }
}

proof fn lemma_kept<F>(
    s: Seq<SignalObservation<F, F>>,
    i: int,
    a: Seq<Signal<F>>,
    b: Seq<Signal<F>>,
)
    requires
        all_values(s, s[i], i, a),
    ensures
        all_values(s, s[i], i, a + b),
{
    let vs = a + b;
    assert forall|letter: u8, val: Option<F>, lli: int| #[trigger]
        has_value(s, i, letter, val, lli, a) implies has_value(s, i, letter, val, lli, vs) by {
        let k = choose|k: int| 0 <= k < a.len() && is_value(s, i, letter, val, lli, #[trigger] a[k]);
        assert(vs[k] == a[k]);
    }
}

proof fn lemma_values_of<F>(s: Seq<SignalObservation<F, F>>, n: int)
    requires
        0 <= n <= s.len(),
    ensures
        are_of(s, n, signals_of(s.take(n))),
    decreases n,
{
    if n == 0 {
        assert(s.take(0) =~= Seq::empty());
    } else {
        lemma_values_of(s, n - 1);
        let p = s.take(n);
        let i = n - 1;
        let o = s[i];
        assert(p.drop_last() =~= s.take(i));
        assert(p.last() == o);
        lemma_slip(s, i);
        let before = signals_of(s.take(i));
        let f = fields_of(o.sig, o.v, slipped(p));
        let more = as_signals(o.t, o.sat, f);
        let vs = signals_of(p);
        assert(vs == before + more);
        lemma_fields(s, i, f, more);
        assert forall|k: int| 0 <= k < vs.len() implies of_some(s, n, #[trigger] vs[k]) by {
            if k < before.len() {
                assert(of_some(s, n - 1, before[k]));
                let j = choose|j: int| 0 <= j < n - 1 && #[trigger] is_of(s, j, before[k]);
                assert(is_of(s, j, vs[k]));
            } else {
                assert(is_of(s, i, more[k - before.len()]));
                assert(vs[k] == more[k - before.len()]);
            }
        }
        assert forall|j: int| 0 <= j < n implies all_values(s, #[trigger] s[j], j, vs) by {
            if j < i {
                lemma_kept(s, j, before, more);
            } else {
                lemma_kept_behind(s, i, before, more);
            }
        }
    }
}

proof fn lemma_kept_behind<F>(
    s: Seq<SignalObservation<F, F>>,
    i: int,
    a: Seq<Signal<F>>,
    b: Seq<Signal<F>>,
)
    requires
        all_values(s, s[i], i, b),
    ensures
        all_values(s, s[i], i, a + b),
{
    let vs = a + b;
    assert forall|letter: u8, val: Option<F>, lli: int| #[trigger]
        has_value(s, i, letter, val, lli, b) implies has_value(s, i, letter, val, lli, vs) by {
        let k = choose|k: int| 0 <= k < b.len() && is_value(s, i, letter, val, lli, #[trigger] b[k]);
        assert(vs[a.len() + k] == b[k]);
    }
}

proof fn lemma_fields<F>(
    s: Seq<SignalObservation<F, F>>,
    i: int,
    f: Seq<(ObsCode, ObsField<F>)>,
    more: Seq<Signal<F>>,
)
    requires
        0 <= i < s.len(),
        f == fields_of(s[i].sig, s[i].v, tells_slip(s, i)),
        more == as_signals(s[i].t, s[i].sat, f),
    ensures
        more.len() == value_count(s, i + 1) - value_count(s, i),
        forall|k: int| 0 <= k < more.len() ==> is_of(s, i, #[trigger] more[k]),
        all_values(s, s[i], i, more),
{
    let o = s[i];
    let c = if o.v.pr is Some { 1int } else { 0int };
    let l = if o.v.cp is Some || indicator_of(s, i) != 0 { 1int } else { 0int };
    let d = if o.v.dop is Some { 1int } else { 0int };
    let e = if o.v.cn0 is Some { 1int } else { 0int };
    assert(lli_of(tells_slip(s, i), o.v.hc, o.v.bt) == indicator_of(s, i));
    assert(f.len() == c + l + d + e);
    assert forall|typ: u8| (#[trigger] obs_code(o.sig, typ)).0@ == seq![
        typ,
        o.sig.0@[0],
        o.sig.0@[1],
    ] by {
        assert(obs_code(o.sig, typ).0@ =~= seq![typ, o.sig.0@[0], o.sig.0@[1]]);
    }
    if c == 1 {
        assert(is_value(s, i, 0x43, o.v.pr, 0, more[0]));
    }
    if l == 1 {
        assert(is_value(s, i, 0x4c, o.v.cp, indicator_of(s, i), more[c]));
    }
    if d == 1 {
        assert(is_value(s, i, 0x44, o.v.dop, 0, more[c + l]));
    }
    if e == 1 {
        assert(is_value(s, i, 0x53, o.v.cn0, 0, more[c + l + d]));
    }
}

/// A record is planned with every value of the observations, in the order of time, under the
/// code of its kind and signal.
pub proof fn lemma_plan<F: Copy>(obs: &[SignalObservation<F, F>], r: Result<Plan<F>, String>)
    requires
        obs@.len() > 0,
        call_ensures(plan_record::<F>, (obs,), r),
    ensures
        r matches Ok(p) ==> exists|s: Seq<SignalObservation<F, F>>| #[trigger]
            in_time_order(obs@, s) && are_of(s, s.len() as int, p.signals@) && p.first == s[0].t
                && p.last == s[s.len() - 1].t,
{
    let s = choose|s: Seq<SignalObservation<F, F>>| #[trigger]
        in_time_order(obs@, s) && planned(s, r);
    if r is Ok {
        lemma_values_of(s, s.len() as int);
        assert(s.take(s.len() as int) =~= s);
    }
}

// ---- reading ----

/// Whether a value of a record is of a satellite and signal.
pub open spec fn of_signal<F, G>(v: RecordSignal<F, G>, o: SignalObservation<F, G>) -> bool {
    v.sat == Some(o.sat) && v.sig == Some(o.sig)
}

/// Whether value `i` is the last of its kind, satellite and signal.
pub open spec fn counts<F, G>(vs: Seq<RecordSignal<F, G>>, n: int, i: int) -> bool {
    &&& 0 <= i < n <= vs.len()
    &&& vs[i].sat is Some && vs[i].sig is Some
    &&& forall|k: int|
        i < k < n ==> (#[trigger] vs[k]).sat != vs[i].sat || vs[k].sig != vs[i].sig || vs[k].kind
            != vs[i].kind
}

/// What a value says of its observation, by its kind.
pub open spec fn says<F, G>(v: RecordSignal<F, G>, o: SignalObservation<F, G>) -> bool {
    match v.kind {
        ObsKind::Code => o.v.pr == Some(v.value),
        ObsKind::Phase => o.v.cp == Some(v.value) && (v.lli matches Some(n) ==> o.v.hc == ((n / 2)
            % 2 == 1) && o.v.bt == ((n / 4) % 2 == 1)),
        ObsKind::Doppler => o.v.dop == Some(v.value),
        ObsKind::SignalStrength => o.v.cn0 == Some(v.strength),
        ObsKind::Other => true,
    }
}

/// Whether none of the first `n` values is of this kind, of the signal of an observation.
pub open spec fn lacks<F, G>(
    vs: Seq<RecordSignal<F, G>>,
    n: int,
    kind: ObsKind,
    o: SignalObservation<F, G>,
) -> bool {
    forall|i: int| 0 <= i < n && (#[trigger] vs[i]).kind == kind ==> !of_signal(vs[i], o)
}

/// Whether one of the first `n` values is of the signal of an observation.
pub open spec fn mentioned<F, G>(
    vs: Seq<RecordSignal<F, G>>,
    n: int,
    o: SignalObservation<F, G>,
) -> bool {
    exists|i: int| 0 <= i < n && of_signal(#[trigger] vs[i], o)
}

/// How many of the first `n` values tell of a loss of lock of a signal: phases whose indicator
/// is odd.
pub open spec fn slips_in<F, G>(
    vs: Seq<RecordSignal<F, G>>,
    n: int,
    o: SignalObservation<F, G>,
) -> int
    decreases n,
{
    if n <= 0 {
        0
    } else {
        let v = vs[n - 1];
        slips_in(vs, n - 1, o) + (if of_signal(v, o) && v.kind is Phase && (v.lli matches Some(b)
            && b % 2 == 1) {
            1int
        } else {
            0int
        })
    }
}

/// How many values of the first `n` epochs tell of a loss of lock of a signal.
pub open spec fn slips_until<F, G>(
    epochs: Seq<RecordEpoch<F, G>>,
    n: int,
    o: SignalObservation<F, G>,
) -> int
    decreases n,
{
    if n <= 0 {
        0
    } else {
        slips_until(epochs, n - 1, o) + slips_in(
            epochs[n - 1].signals@,
            epochs[n - 1].signals@.len() as int,
            o,
        )
    }
}

/// A count that stays at the largest value once it is there.
pub open spec fn capped(n: int) -> int {
    if n <= 0xffff_ffff {
        n
    } else {
        0xffff_ffff
    }
}

/// Whether the arcs of observations are the losses of lock of the first `n` epochs.
pub open spec fn arcs_count<F, G>(
    epochs: Seq<RecordEpoch<F, G>>,
    n: int,
    os: Seq<SignalObservation<F, G>>,
) -> bool {
    forall|a: int|
        0 <= a < os.len() ==> (#[trigger] os[a]).v.arc == capped(slips_until(epochs, n, os[a]))
}

/// Whether observations are those of the first `n` values of an epoch: one for each satellite
/// and signal, with its values and no others.
pub open spec fn are_read<F, G>(
    t: GpsTime,
    vs: Seq<RecordSignal<F, G>>,
    n: int,
    os: Seq<SignalObservation<F, G>>,
) -> bool {
    &&& forall|a: int|
        0 <= a < os.len() ==> {
            let o = #[trigger] os[a];
            &&& o.t == t && o.v.frq is None && !o.v.ll
            &&& mentioned(vs, n, o)
            &&& lacks(vs, n, ObsKind::Code, o) ==> o.v.pr is None
            &&& lacks(vs, n, ObsKind::Phase, o) ==> o.v.cp is None && !o.v.hc && !o.v.bt
            &&& lacks(vs, n, ObsKind::Doppler, o) ==> o.v.dop is None
            &&& lacks(vs, n, ObsKind::SignalStrength, o) ==> o.v.cn0 is None
        }
    &&& forall|a: int, b: int|
        0 <= a < b < os.len() ==> (#[trigger] os[a]).key() != (#[trigger] os[b]).key()
    &&& forall|i: int| #[trigger] counts(vs, n, i) ==> said(vs[i], os)
}

/// Whether one of the observations is of the signal of a value and has it.
pub open spec fn said<F, G>(v: RecordSignal<F, G>, os: Seq<SignalObservation<F, G>>) -> bool {
    exists|a: int| 0 <= a < os.len() && #[trigger] of_signal(v, os[a]) && says(v, os[a])
}

proof fn lemma_find_key<F, G>(os: Seq<SignalObservation<F, G>>, k: SignalKey)
    ensures
        0 <= key_index(os, k) <= os.len(),
        key_index(os, k) < os.len() ==> os[key_index(os, k)].key() == k,
        forall|j: int| 0 <= j < key_index(os, k) ==> (#[trigger] os[j]).key() != k,
    decreases os.len(),
{
    if os.len() > 0 && os[0].key() != k {
        let rest = os.skip(1);
        lemma_find_key(rest, k);
        assert forall|j: int| 0 <= j < key_index(os, k) implies (#[trigger] os[j]).key() != k by {
            if j > 0 {
                assert(rest[j - 1] == os[j]);
            }
        }
    }
}

proof fn lemma_lacks<F, G>(
    vs: Seq<RecordSignal<F, G>>,
    n: int,
    kind: ObsKind,
    o: SignalObservation<F, G>,
)
    requires
        n > 0,
    ensures
        lacks(vs, n, kind, o) ==> lacks(vs, n - 1, kind, o),
        lacks(vs, n, kind, o) && of_signal(vs[n - 1], o) ==> vs[n - 1].kind != kind,
{
}

proof fn lemma_epoch_read<F, G>(t: GpsTime, vs: Seq<RecordSignal<F, G>>, n: int)
    requires
        0 <= n <= vs.len(),
    ensures
        are_read(t, vs, n, epoch_observations(t, vs.take(n))),
    decreases n,
{
    if n == 0 {
        assert(vs.take(0) =~= Seq::empty());
    } else {
        lemma_epoch_read(t, vs, n - 1);
        let p = vs.take(n);
        assert(p.drop_last() =~= vs.take(n - 1));
        assert(p.last() == vs[n - 1]);
        let before = epoch_observations(t, vs.take(n - 1));
        let os = epoch_observations(t, p);
        let v = vs[n - 1];
        if v.sat is Some && v.sig is Some {
            let key = SignalKey { sat: v.sat->0, sig: v.sig->0 };
            lemma_find_key(before, key);
            lemma_value_step(t, vs, n, before, os, key_index(before, key));
        } else {
            lemma_nameless_step(t, vs, n, before);
        }
    }
}

proof fn lemma_nameless_step<F, G>(
    t: GpsTime,
    vs: Seq<RecordSignal<F, G>>,
    n: int,
    os: Seq<SignalObservation<F, G>>,
)
    requires
        0 < n <= vs.len(),
        vs[n - 1].sat is None || vs[n - 1].sig is None,
        are_read(t, vs, n - 1, os),
    ensures
        are_read(t, vs, n, os),
{
    assert forall|a: int| 0 <= a < os.len() implies ({
        let o = #[trigger] os[a];
        &&& o.t == t && o.v.frq is None && !o.v.ll
        &&& mentioned(vs, n, o)
        &&& lacks(vs, n, ObsKind::Code, o) ==> o.v.pr is None
        &&& lacks(vs, n, ObsKind::Phase, o) ==> o.v.cp is None && !o.v.hc && !o.v.bt
        &&& lacks(vs, n, ObsKind::Doppler, o) ==> o.v.dop is None
        &&& lacks(vs, n, ObsKind::SignalStrength, o) ==> o.v.cn0 is None
    }) by {
        lemma_lacks(vs, n, ObsKind::Code, os[a]);
        lemma_lacks(vs, n, ObsKind::Phase, os[a]);
        lemma_lacks(vs, n, ObsKind::Doppler, os[a]);
        lemma_lacks(vs, n, ObsKind::SignalStrength, os[a]);
    }
    assert forall|i: int| #[trigger] counts(vs, n, i) implies said(vs[i], os) by {
        assert(counts(vs, n - 1, i));
    }
}

proof fn lemma_value_step<F, G>(
    t: GpsTime,
    vs: Seq<RecordSignal<F, G>>,
    n: int,
    before: Seq<SignalObservation<F, G>>,
    os: Seq<SignalObservation<F, G>>,
    k: int,
)
    requires
        0 < n <= vs.len(),
        vs[n - 1].sat is Some && vs[n - 1].sig is Some,
        are_read(t, vs, n - 1, before),
        0 <= k <= before.len(),
        ({
            let v = vs[n - 1];
            let key = SignalKey { sat: v.sat->0, sig: v.sig->0 };
            &&& forall|j: int| 0 <= j < k ==> (#[trigger] before[j]).key() != key
            &&& k < before.len() ==> before[k].key() == key
            &&& os == (if k < before.len() {
                before.update(
                    k,
                    SignalObservation { v: with_record_value(before[k].v, v), ..before[k] },
                )
            } else {
                before.push(
                    SignalObservation {
                        t,
                        sat: key.sat,
                        sig: key.sig,
                        v: with_record_value(no_values(), v),
                    },
                )
            })
        }),
    ensures
        are_read(t, vs, n, os),
{
    let v = vs[n - 1];
    let o = os[k];
    assert(of_signal(v, o));
    assert(says(v, o));
    assert forall|a: int| 0 <= a < os.len() implies ({
        let o = #[trigger] os[a];
        &&& o.t == t && o.v.frq is None && !o.v.ll
        &&& mentioned(vs, n, o)
        &&& lacks(vs, n, ObsKind::Code, o) ==> o.v.pr is None
        &&& lacks(vs, n, ObsKind::Phase, o) ==> o.v.cp is None && !o.v.hc && !o.v.bt
        &&& lacks(vs, n, ObsKind::Doppler, o) ==> o.v.dop is None
        &&& lacks(vs, n, ObsKind::SignalStrength, o) ==> o.v.cn0 is None
    }) by {
        lemma_lacks(vs, n, ObsKind::Code, os[a]);
        lemma_lacks(vs, n, ObsKind::Phase, os[a]);
        lemma_lacks(vs, n, ObsKind::Doppler, os[a]);
        lemma_lacks(vs, n, ObsKind::SignalStrength, os[a]);
        if a == k {
            assert(of_signal(vs[n - 1], os[a]));
            if k < before.len() {
                let b = before[k];
                assert(b.sat == o.sat && b.sig == o.sig);
                assert(forall|kind: ObsKind| #[trigger]
                    lacks(vs, n - 1, kind, o) ==> lacks(vs, n - 1, kind, b));
            }
        } else {
            assert(os[a] == before[a]);
        }
    }
    assert forall|a: int, b: int| 0 <= a < b < os.len() implies (#[trigger] os[a]).key() != (
    #[trigger] os[b]).key() by {
        if a != k && b != k {
            assert(before[a].key() != before[b].key());
        } else if k < before.len() {
            assert(before[a].key() != before[b].key());
        } else {
            assert(before[a].key() != os[k].key());
        }
    }
    assert forall|i: int| #[trigger] counts(vs, n, i) implies said(vs[i], os) by {
        if i < n - 1 {
            assert(counts(vs, n - 1, i));
            assert(said(vs[i], before));
            let a = choose|a: int|
                0 <= a < before.len() && #[trigger] of_signal(vs[i], before[a]) && says(
                    vs[i],
                    before[a],
                );
            if a == k {
                assert(vs[i].sat == v.sat && vs[i].sig == v.sig);
                assert(v.kind != vs[i].kind);
                assert(of_signal(vs[i], os[a]) && says(vs[i], os[a]));
            } else {
                assert(os[a] == before[a]);
                assert(of_signal(vs[i], os[a]) && says(vs[i], os[a]));
            }
        } else {
            assert(of_signal(vs[i], os[k]) && says(vs[i], os[k]));
        }
    }
}

/// The epochs of a record are read one behind the other.
pub open spec fn all_read<F, G>(
    epochs: Seq<RecordEpoch<F, G>>,
    n: int,
    blocks: Seq<Seq<SignalObservation<F, G>>>,
    os: Seq<SignalObservation<F, G>>,
) -> bool {
    &&& blocks.len() == n
    &&& os == blocks.flatten()
    &&& forall|k: int|
        0 <= k < n ==> are_read(
            (#[trigger] epochs[k]).t,
            epochs[k].signals@,
            epochs[k].signals@.len() as int,
            blocks[k],
        ) && arcs_count(epochs, k + 1, blocks[k])
}

proof fn lemma_counted_read<F, G>(
    t: GpsTime,
    vs: Seq<RecordSignal<F, G>>,
    os: Seq<SignalObservation<F, G>>,
    arcs: Map<u64, u32>,
)
    requires
        are_read(t, vs, vs.len() as int, os),
    ensures
        are_read(t, vs, vs.len() as int, with_counts(os, arcs)),
{
    let n = vs.len() as int;
    let w = with_counts(os, arcs);
    assert forall|a: int| 0 <= a < w.len() implies ({
        let o = #[trigger] w[a];
        &&& o.t == t && o.v.frq is None && !o.v.ll
        &&& mentioned(vs, n, o)
        &&& lacks(vs, n, ObsKind::Code, o) ==> o.v.pr is None
        &&& lacks(vs, n, ObsKind::Phase, o) ==> o.v.cp is None && !o.v.hc && !o.v.bt
        &&& lacks(vs, n, ObsKind::Doppler, o) ==> o.v.dop is None
        &&& lacks(vs, n, ObsKind::SignalStrength, o) ==> o.v.cn0 is None
    }) by {
        let b = os[a];
        assert(w[a].sat == b.sat && w[a].sig == b.sig);
        let i = choose|i: int| 0 <= i < n && of_signal(#[trigger] vs[i], b);
        assert(of_signal(vs[i], w[a]));
        assert(forall|kind: ObsKind| #[trigger] lacks(vs, n, kind, w[a]) ==> lacks(vs, n, kind, b));
    }
    assert forall|a: int, b: int| 0 <= a < b < w.len() implies (#[trigger] w[a]).key() != (
    #[trigger] w[b]).key() by {
        assert(os[a].key() != os[b].key());
    }
    assert forall|i: int| #[trigger] counts(vs, n, i) implies said(vs[i], w) by {
        assert(said(vs[i], os));
        let a = choose|a: int|
            0 <= a < os.len() && #[trigger] of_signal(vs[i], os[a]) && says(vs[i], os[a]);
        assert(of_signal(vs[i], w[a]) && says(vs[i], w[a]));
    }
}

proof fn lemma_slips_counted<F, G>(
    arcs: Map<u64, u32>,
    vs: Seq<RecordSignal<F, G>>,
    n: int,
    o: SignalObservation<F, G>,
    c: int,
)
    requires
        0 <= n <= vs.len(),
        0 <= c,
        counted(arcs, o.key()) == capped(c),
    ensures
        0 <= slips_in(vs, n, o),
        counted(counts_after(arcs, vs.take(n)), o.key()) == capped(c + slips_in(vs, n, o)),
    decreases n,
{
    if n == 0 {
        assert(vs.take(0) =~= Seq::empty());
    } else {
        lemma_slips_counted(arcs, vs, n - 1, o, c);
        assert(vs.take(n).drop_last() =~= vs.take(n - 1));
        let v = vs[n - 1];
        assert(vs.take(n).last() == v);
        if v.sat is Some && v.sig is Some {
            lemma_key_number_unique(SignalKey { sat: v.sat->0, sig: v.sig->0 }, o.key());
        }
    }
}

proof fn lemma_slips_nonnegative<F, G>(
    epochs: Seq<RecordEpoch<F, G>>,
    n: int,
    o: SignalObservation<F, G>,
)
    ensures
        0 <= slips_until(epochs, n, o),
    decreases n,
{
    if n > 0 {
        lemma_slips_nonnegative(epochs, n - 1, o);
        lemma_slips_in_nonnegative(
            epochs[n - 1].signals@,
            epochs[n - 1].signals@.len() as int,
            o,
        );
    }
}

proof fn lemma_slips_in_nonnegative<F, G>(
    vs: Seq<RecordSignal<F, G>>,
    n: int,
    o: SignalObservation<F, G>,
)
    ensures
        0 <= slips_in(vs, n, o),
    decreases n,
{
    if n > 0 {
        lemma_slips_in_nonnegative(vs, n - 1, o);
    }
}

proof fn lemma_record_read<F, G>(epochs: Seq<RecordEpoch<F, G>>, n: int) -> (blocks: Seq<
    Seq<SignalObservation<F, G>>,
>)
    requires
        0 <= n <= epochs.len(),
    ensures
        all_read(epochs, n, blocks, record_observations(record_views(epochs).take(n)).0),
        forall|o: SignalObservation<F, G>|
            counted(record_observations(record_views(epochs).take(n)).1, o.key()) == capped(
                #[trigger] slips_until(epochs, n, o),
            ),
    decreases n,
{
    let all = record_views(epochs);
    if n == 0 {
        assert(all.take(0) =~= Seq::empty());
        let none = Seq::<Seq<SignalObservation<F, G>>>::empty();
        assert(none.flatten() =~= Seq::empty());
        none
    } else {
        let before = lemma_record_read(epochs, n - 1);
        assert(all.take(n).drop_last() =~= all.take(n - 1));
        assert(all.take(n).last() == epochs[n - 1]@);
        let (os, arcs) = record_observations(all.take(n - 1));
        let e = epochs[n - 1];
        let after = counts_after(arcs, e.signals@);
        let vs = e.signals@;
        assert(vs.take(vs.len() as int) =~= vs);
        lemma_epoch_read(e.t, vs, vs.len() as int);
        let block = with_counts(epoch_observations(e.t, vs), after);
        lemma_counted_read(e.t, vs, epoch_observations(e.t, vs), after);
        let blocks = before.push(block);
        before.lemma_flatten_push(block);
        assert forall|o: SignalObservation<F, G>| counted(after, o.key()) == capped(
            #[trigger] slips_until(epochs, n, o),
        ) by {
            let c = slips_until(epochs, n - 1, o);
            lemma_slips_nonnegative(epochs, n - 1, o);
            lemma_slips_counted(arcs, vs, vs.len() as int, o, c);
        }
        assert(arcs_count(epochs, n, block)) by {
            let read = epoch_observations(e.t, vs);
            assert forall|a: int| 0 <= a < block.len() implies (#[trigger] block[a]).v.arc
                == capped(slips_until(epochs, n, block[a])) by {
                assert(block[a].key() == read[a].key());
                assert(block[a].v.arc == counted(after, read[a].key()));
            }
        }
        assert forall|k: int| 0 <= k < n implies are_read(
            (#[trigger] epochs[k]).t,
            epochs[k].signals@,
            epochs[k].signals@.len() as int,
            blocks[k],
        ) && arcs_count(epochs, k + 1, blocks[k]) by {
            if k < n - 1 {
                assert(blocks[k] == before[k]);
            }
        }
        blocks
    }
}

/// A record is read epoch by epoch, each value into the observation of its satellite and
/// signal, by its kind; the arcs count the losses of lock.
pub proof fn lemma_record_read_back<F: Copy, G: Copy>(
    epochs: &[RecordEpoch<F, G>],
    r: Vec<SignalObservation<F, G>>,
)
    requires
        call_ensures(observations_from_record::<F, G>, (epochs,), r),
    ensures
        exists|blocks: Seq<Seq<SignalObservation<F, G>>>| #[trigger]
            all_read(epochs@, epochs@.len() as int, blocks, r@),
{
    let n = epochs@.len() as int;
    let all = record_views(epochs@);
    assert(all.take(n) =~= all);
    let blocks = lemma_record_read(epochs@, n);
    assert(all_read(epochs@, n, blocks, r@));
}

// ---- files ----

/// Whether a code stands before another: by the two characters of the signal, and for one
/// signal the range before the phase, the Doppler shift and the strength.
pub open spec fn goes_before(a: ObsCode, b: ObsCode) -> bool {
    let (x, y) = (a.0@, b.0@);
    if x[1] != y[1] {
        x[1] < y[1]
    } else if x[2] != y[2] {
        x[2] < y[2]
    } else {
        ||| x[0] == 0x43 && y[0] != 0x43
        ||| x[0] == 0x4c && y[0] != 0x43 && y[0] != 0x4c
        ||| x[0] == 0x44 && y[0] != 0x43 && y[0] != 0x4c && y[0] != 0x44
        ||| x[0] == 0x53 && y[0] != 0x43 && y[0] != 0x4c && y[0] != 0x44 && y[0] != 0x53
    }
}

/// Whether a list holds the code of a letter and a signal.
pub open spec fn lists_code(l: Seq<ObsCode>, letter: u8, sig: SigId) -> bool {
    exists|i: int|
        0 <= i < l.len() && (#[trigger] l[i]).0@ == seq![letter, sig.0@[0], sig.0@[1]]
}

/// The list of a system in a file.
pub open spec fn codes_in<F>(f: ObsFile<F>, sys: u8) -> Seq<ObsCode> {
    list_of(code_lists(f.codes@), sys)
}

/// Whether the codes of an observation are listed for its system: one for each value that it
/// has, and the phase as soon as it has any.
pub open spec fn codes_of<F>(f: ObsFile<F>, o: SignalObservation<F, F>) -> bool {
    let l = codes_in(f, o.sat.0@[0]);
    &&& o.v.pr is Some ==> lists_code(l, 0x43, o.sig) && lists_code(l, 0x4c, o.sig)
    &&& o.v.cp is Some ==> lists_code(l, 0x4c, o.sig)
    &&& o.v.dop is Some ==> lists_code(l, 0x44, o.sig) && lists_code(l, 0x4c, o.sig)
    &&& o.v.cn0 is Some ==> lists_code(l, 0x53, o.sig) && lists_code(l, 0x4c, o.sig)
    &&& o.v.hc || o.v.bt ==> lists_code(l, 0x4c, o.sig)
}

/// Whether a file spans observations in the order of time and lists their codes.
pub open spec fn file_spans<F>(f: ObsFile<F>, s: Seq<SignalObservation<F, F>>) -> bool {
    &&& f.first == s[0].t && f.last == s[s.len() - 1].t
    &&& forall|i: int| 0 <= i < s.len() ==> f.first.0 <= (#[trigger] s[i]).t.0 <= f.last.0
    &&& forall|i: int| 0 <= i < s.len() ==> codes_of(f, #[trigger] s[i])
    &&& f.codes@.len() == 7
    &&& forall|k: int, i: int, j: int|
        0 <= k < 7 && 0 <= i < j < f.codes@[k]@.len() ==> goes_before(
            #[trigger] f.codes@[k]@[i],
            #[trigger] f.codes@[k]@[j],
        )
}

proof fn lemma_code_listed<F>(
    s: Seq<SignalObservation<F, F>>,
    f: ObsFile<F>,
    i: int,
    letter: u8,
)
    requires
        file_of(s, f),
        0 <= i < s.len(),
        is_system(s[i].sat.0@[0]),
        writes(s[i].v, slipped(s.take(i + 1)), letter),
    ensures
        lists_code(codes_in(f, s[i].sat.0@[0]), letter, s[i].sig),
{
    let lists = code_lists(f.codes@);
    let c = obs_code(s[i].sig, letter);
    let k = system_rank(s[i].sat.0@[0]);
    lemma_code_parts(s[i].sig, letter);
    assert(code_used(s, k, c));
    assert(lists[k].contains(c));
    let l = lists[k];
    let q = choose|q: int| 0 <= q < l.len() && l[q] == c;
    assert(c.0@ =~= seq![letter, s[i].sig.0@[0], s[i].sig.0@[1]]);
    assert(l[q].0@ == seq![letter, s[i].sig.0@[0], s[i].sig.0@[1]]);
    assert(codes_in(f, s[i].sat.0@[0]) == l);
}

/// A file begins at the first and ends at the last of the times of its observations, and lists
/// their codes for each system, in order.
pub proof fn lemma_file_spans<F: Copy>(
    obs: &[SignalObservation<F, F>],
    r: Result<ObsFile<F>, String>,
)
    requires
        obs@.len() > 0,
        call_ensures(build_obs_file::<F>, (obs,), r),
    ensures
        r matches Ok(f) ==> exists|s: Seq<SignalObservation<F, F>>| #[trigger]
            in_time_order(obs@, s) && file_spans(f, s),
{
    let s = choose|s: Seq<SignalObservation<F, F>>| #[trigger] in_time_order(obs@, s) && built(s, r);
    if let Ok(f) = r {
        let lists = code_lists(f.codes@);
        assert(f.codes@.len() == 7);
        assert forall|i: int| 0 <= i < s.len() implies f.first.0 <= (#[trigger] s[i]).t.0 <= f.last.0
            by {
            assert(s[0].t.0 <= s[i].t.0);
            assert(s[i].t.0 <= s[s.len() - 1].t.0);
        }
        assert forall|i: int| 0 <= i < s.len() implies codes_of(f, #[trigger] s[i]) by {
            let o = s[i];
            lemma_all_valid(s, i);
            if o.v.pr is Some {
                lemma_code_listed(s, f, i, 0x43);
            }
            if o.v.dop is Some {
                lemma_code_listed(s, f, i, 0x44);
            }
            if o.v.cn0 is Some {
                lemma_code_listed(s, f, i, 0x53);
            }
            if o.v.pr is Some || o.v.cp is Some || o.v.dop is Some || o.v.cn0 is Some || o.v.hc
                || o.v.bt {
                lemma_code_listed(s, f, i, 0x4c);
            }
        }
        assert forall|k: int, i: int, j: int|
            0 <= k < 7 && 0 <= i < j < f.codes@[k]@.len() implies goes_before(
            #[trigger] f.codes@[k]@[i],
            #[trigger] f.codes@[k]@[j],
        ) by {
            assert(lists[k] == f.codes@[k]@);
            assert(codes_distinct(lists[k]));
            assert(code_rank(lists[k][i]) < code_rank(lists[k][j]));
        }
        assert(file_spans(f, s));
    }
}

proof fn lemma_all_valid<F>(s: Seq<SignalObservation<F, F>>, i: int)
    requires
        first_invalid(s) == s.len(),
        0 <= i < s.len(),
    ensures
        is_system(s[i].sat.0@[0]),
    decreases s.len(),
{
    if i > 0 {
        lemma_all_valid(s.skip(1), i - 1);
    }
}

} // verus!
