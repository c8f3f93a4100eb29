//! What comparing two streams of observations reports: everything that differs, and
//! nothing else.

use crate::diff::{
    align, arc_before, before, covered, diff_metadata, diff_observations, differences, is_alignment,
    is_first, is_of, loses_lock, pair_record, place, tells, DiffRecord, MetadataNear, Near, Pair,
};
use crate::metadata::Metadata;
use crate::obs::{key_number, lemma_key_number_unique, SignalObservation, SignalValues};
use vstd::prelude::*;

verus! {

// ---- observations ----

/// Whether `i` is the first observation of its time, satellite and signal.
pub open spec fn leads<F, G>(os: Seq<SignalObservation<F, G>>, i: int) -> bool {
    &&& 0 <= i < os.len()
    &&& forall|j: int|
        0 <= j < i ==> (#[trigger] os[j]).t != os[i].t || os[j].sat != os[i].sat || os[j].sig
            != os[i].sig
}

/// Whether two observations are of one time, satellite and signal.
pub open spec fn corresponds<F, G>(x: SignalObservation<F, G>, y: SignalObservation<F, G>) -> bool {
    x.t == y.t && x.sat == y.sat && x.sig == y.sig
}

/// Whether a stream has no observation of the time, satellite and signal of `o`.
pub open spec fn lacks<F, G>(os: Seq<SignalObservation<F, G>>, o: SignalObservation<F, G>) -> bool {
    forall|j: int| 0 <= j < os.len() ==> !corresponds(#[trigger] os[j], o)
}

/// Whether two values differ: only one of them is there, or both are and are not near.
pub open spec fn apart<T>(x: Option<T>, y: Option<T>, near: bool) -> bool {
    (x is Some && y is None) || (x is None && y is Some) || (x is Some && y is Some && !near)
}

/// Whether `x` of one side is shown as `shown`: as it is where the sides differ, else
/// not at all.
pub open spec fn shown<T>(x: Option<T>, differs: bool, shown: Option<T>) -> bool {
    if differs {
        shown == x
    } else {
        shown is None
    }
}

/// Whether `p` is the last leading observation of the signal of `i` before its time.
pub open spec fn precedes<F, G>(os: Seq<SignalObservation<F, G>>, p: int, i: int) -> bool {
    &&& leads(os, p)
    &&& os[p].sat == os[i].sat && os[p].sig == os[i].sig
    &&& os[p].t.0 < os[i].t.0
    &&& forall|q: int|
        0 <= q < os.len() && (#[trigger] os[q]).sat == os[i].sat && os[q].sig == os[i].sig
            ==> !(os[p].t.0 < os[q].t.0 < os[i].t.0)
}

/// Whether an arc ends before observation `i`: that of its signal at the time before
/// is another.
pub open spec fn lost<F, G>(os: Seq<SignalObservation<F, G>>, i: int) -> bool {
    exists|p: int| #[trigger] precedes(os, p, i) && os[p].v.arc != os[i].v.arc
}

/// Whether the phases of two observations are compared.
pub open spec fn phases_count<F, G>(
    x: SignalValues<F, G>,
    y: SignalValues<F, G>,
    ignore_blank_phase: bool,
) -> bool {
    !ignore_blank_phase || (x.cp is Some && y.cp is Some)
}

/// Whether two observations differ in anything that is compared.
pub open spec fn differ<F, G>(
    x: SignalValues<F, G>,
    y: SignalValues<F, G>,
    near: Near,
    lost_x: bool,
    lost_y: bool,
    ignore_blank_phase: bool,
) -> bool {
    ||| apart(x.pr, y.pr, near.pr)
    ||| apart(x.cp, y.cp, near.cp) && phases_count(x, y, ignore_blank_phase)
    ||| apart(x.dop, y.dop, near.dop)
    ||| apart(x.cn0, y.cn0, near.cn0)
    ||| x.frq != y.frq
    ||| x.hc != y.hc
    ||| x.bt != y.bt
    ||| lost_x != lost_y && phases_count(x, y, ignore_blank_phase)
}

/// Whether a record shows how observations `x` and `y` differ, each value under its
/// own name and on its own side.
pub open spec fn shows<F, G>(
    d: DiffRecord<F, G>,
    x: SignalObservation<F, G>,
    y: SignalObservation<F, G>,
    near: Near,
    lost_x: bool,
    lost_y: bool,
    ignore_blank_phase: bool,
) -> bool {
    let count = phases_count(x.v, y.v, ignore_blank_phase);
    let cp = apart(x.v.cp, y.v.cp, near.cp) && count;
    &&& d.t == x.t && d.sat == x.sat && d.sig == x.sig
    &&& d.a is Some && d.b is Some
    &&& shown(x.v.pr, apart(x.v.pr, y.v.pr, near.pr), d.a->0.v.pr)
    &&& shown(y.v.pr, apart(x.v.pr, y.v.pr, near.pr), d.b->0.v.pr)
    &&& shown(x.v.cp, cp, d.a->0.v.cp)
    &&& shown(y.v.cp, cp, d.b->0.v.cp)
    &&& shown(x.v.dop, apart(x.v.dop, y.v.dop, near.dop), d.a->0.v.dop)
    &&& shown(y.v.dop, apart(x.v.dop, y.v.dop, near.dop), d.b->0.v.dop)
    &&& shown(x.v.cn0, apart(x.v.cn0, y.v.cn0, near.cn0), d.a->0.v.cn0)
    &&& shown(y.v.cn0, apart(x.v.cn0, y.v.cn0, near.cn0), d.b->0.v.cn0)
    &&& shown(x.v.frq, x.v.frq != y.v.frq, d.a->0.v.frq)
    &&& shown(y.v.frq, x.v.frq != y.v.frq, d.b->0.v.frq)
    &&& d.a->0.v.hc == (x.v.hc && !y.v.hc) && d.b->0.v.hc == (y.v.hc && !x.v.hc)
    &&& d.a->0.v.bt == (x.v.bt && !y.v.bt) && d.b->0.v.bt == (y.v.bt && !x.v.bt)
    &&& d.a->0.ll == (count && lost_x && !lost_y)
    &&& d.b->0.ll == (count && lost_y && !lost_x)
}

/// Whether values that only one side has are shown whole, but for the arc.
pub open spec fn shown_whole<F, G>(v: SignalValues<F, G>, d: SignalValues<F, G>) -> bool {
    &&& d.pr == v.pr && d.cp == v.cp && d.dop == v.dop && d.cn0 == v.cn0
    &&& d.frq == v.frq && d.hc == v.hc && d.bt == v.bt
}

/// Whether a record is of the time, satellite and signal of an observation.
pub open spec fn is_about<F, G>(d: DiffRecord<F, G>, o: SignalObservation<F, G>) -> bool {
    d.t == o.t && d.sat == o.sat && d.sig == o.sig
}

/// Whether one of the records is about an observation.
pub open spec fn told<F, G>(r: Seq<DiffRecord<F, G>>, o: SignalObservation<F, G>) -> bool {
    exists|m: int| 0 <= m < r.len() && is_about(#[trigger] r[m], o)
}

// ---- how pairs are found ----

proof fn lemma_is_of<F, G>(os: Seq<SignalObservation<F, G>>, i: int, j: int)
    requires
        0 <= i < os.len(),
        0 <= j < os.len(),
    ensures
        is_of(os, j, os[i].t.0, key_number(os[i].key())) <==> corresponds(os[j], os[i]),
{
    lemma_key_number_unique(os[i].key(), os[j].key());
}

proof fn lemma_leads<F, G>(os: Seq<SignalObservation<F, G>>, i: int, n: usize)
    requires
        leads(os, i),
        is_first(os, os[i].t.0, key_number(os[i].key()), Some(n)),
    ensures
        n == i,
{
    assert(is_of(os, n as int, os[i].t.0, key_number(os[i].key())));
    lemma_is_of(os, i, n as int);
    if i < n {
        assert(is_of(os, i, os[i].t.0, key_number(os[i].key())));
    }
    if n < i {
        assert(os[n as int].t != os[i].t || os[n as int].sat != os[i].sat || os[n as int].sig
            != os[i].sig);
    }
}

proof fn lemma_first_leads<F, G>(os: Seq<SignalObservation<F, G>>, t: i64, key: u64, n: usize)
    requires
        is_first(os, t, key, Some(n)),
    ensures
        leads(os, n as int),
        os[n as int].t.0 == t,
        key_number(os[n as int].key()) == key,
{
    assert(is_of(os, n as int, t, key));
    assert forall|j: int| 0 <= j < n implies (#[trigger] os[j]).t != os[n as int].t || os[j].sat
        != os[n as int].sat || os[j].sig != os[n as int].sig by {
        assert(!is_of(os, j, t, key));
        lemma_is_of(os, n as int, j);
    }
}

/// The pair of a leading observation of the first stream, and the other way round.
proof fn lemma_pair_of<F, G>(
    a: Seq<SignalObservation<F, G>>,
    b: Seq<SignalObservation<F, G>>,
    pairs: Seq<Pair>,
    i: int,
    second: bool,
) -> (k: int)
    requires
        is_alignment(a, b, pairs),
        second ==> leads(b, i),
        !second ==> leads(a, i),
    ensures
        0 <= k < pairs.len(),
        place(pairs[k], second) == Some(i as usize),
        i == i as usize,
        pairs[k].t == (if second { b } else { a })[i].t.0,
        pairs[k].key == key_number((if second { b } else { a })[i].key()),
{
    let os = if second { b } else { a };
    let t = os[i].t.0;
    let key = key_number(os[i].key());
    assert(covered(pairs, t, key));
    let k = choose|k: int| 0 <= k < pairs.len() && (#[trigger] pairs[k]).t == t && pairs[k].key == key;
    let p = place(pairs[k], second);
    assert(is_first(os, t, key, p));
    assert(is_of(os, i, t, key));
    match p {
        Some(n) => {
            lemma_leads(os, i, n);
        },
        None => {},
    }
    k
}

proof fn lemma_pair_unique(pairs: Seq<Pair>, k: int, m: int)
    requires
        0 <= k < pairs.len(),
        0 <= m < pairs.len(),
        pairs[k].t == pairs[m].t && pairs[k].key == pairs[m].key,
        forall|i: int, j: int|
            0 <= i < j < pairs.len() ==> before(#[trigger] pairs[i], #[trigger] pairs[j]),
    ensures
        k == m,
{
    if k < m {
        assert(before(pairs[k], pairs[m]));
    }
    if m < k {
        assert(before(pairs[m], pairs[k]));
    }
}

/// The arc at the last of the first `n` pairs in which a stream has a signal.
proof fn lemma_arc_before<F, G>(
    os: Seq<SignalObservation<F, G>>,
    pairs: Seq<Pair>,
    second: bool,
    key: u64,
    n: int,
) -> (m: int)
    requires
        0 <= n <= pairs.len(),
    ensures
        -1 <= m < n,
        m >= 0 ==> pairs[m].key == key && place(pairs[m], second) is Some && arc_before(
            os,
            pairs.take(n),
            second,
            key,
        ) == Some(os[place(pairs[m], second)->0 as int].v.arc),
        m == -1 ==> arc_before(os, pairs.take(n), second, key) is None,
        forall|q: int|
            m < q < n && (#[trigger] pairs[q]).key == key ==> place(pairs[q], second) is None,
    decreases n,
{
    if n == 0 {
        -1
    } else {
        assert(pairs.take(n).drop_last() =~= pairs.take(n - 1));
        assert(pairs.take(n).last() == pairs[n - 1]);
        if pairs[n - 1].key == key && place(pairs[n - 1], second) is Some {
            n - 1
        } else {
            lemma_arc_before(os, pairs, second, key, n - 1)
        }
    }
}

/// A stream loses lock at a pair where an arc ends there.
proof fn lemma_lost<F, G>(
    a: Seq<SignalObservation<F, G>>,
    b: Seq<SignalObservation<F, G>>,
    pairs: Seq<Pair>,
    second: bool,
    k: int,
)
    requires
        is_alignment(a, b, pairs),
        0 <= k < pairs.len(),
        place(pairs[k], second) is Some,
    ensures
        loses_lock(if second { b } else { a }, pairs, second, k) == lost(
            if second { b } else { a },
            place(pairs[k], second)->0 as int,
        ),
{
    let os = if second { b } else { a };
    let n = place(pairs[k], second)->0;
    let i = n as int;
    let key = pairs[k].key;
    assert(is_first(os, pairs[k].t, key, Some(n)));
    lemma_first_leads(os, pairs[k].t, key, n);
    let m = lemma_arc_before(os, pairs, second, key, k);
    if m >= 0 {
        let pn = place(pairs[m], second)->0;
        let p = pn as int;
        assert(is_first(os, pairs[m].t, pairs[m].key, Some(pn)));
        lemma_first_leads(os, pairs[m].t, pairs[m].key, pn);
        lemma_key_number_unique(os[p].key(), os[i].key());
        assert(before(pairs[m], pairs[k]));
        assert forall|q: int|
            0 <= q < os.len() && (#[trigger] os[q]).sat == os[i].sat && os[q].sig
                == os[i].sig implies !(os[p].t.0 < os[q].t.0 < os[i].t.0) by {
            if os[p].t.0 < os[q].t.0 < os[i].t.0 {
                assert(covered(pairs, os[q].t.0, key_number(os[q].key())));
                let z = choose|z: int|
                    0 <= z < pairs.len() && (#[trigger] pairs[z]).t == os[q].t.0 && pairs[z].key
                        == key_number(os[q].key());
                if z <= m {
                    if z < m {
                        assert(before(pairs[z], pairs[m]));
                    }
                } else if z >= k {
                    if k < z {
                        assert(before(pairs[k], pairs[z]));
                    }
                } else {
                    assert(is_first(os, pairs[z].t, pairs[z].key, place(pairs[z], second)));
                    assert(is_of(os, q, pairs[z].t, pairs[z].key));
                }
            }
        }
        assert(precedes(os, p, i));
        assert forall|q: int| #[trigger] precedes(os, q, i) implies os[q].v.arc == os[p].v.arc by {
            assert(!(os[q].t.0 < os[p].t.0 < os[i].t.0));
            assert(!(os[p].t.0 < os[q].t.0 < os[i].t.0));
            assert(os[p].t == os[q].t);
            if q < p {
                assert(os[q].t != os[p].t || os[q].sat != os[p].sat || os[q].sig != os[p].sig);
            } else if p < q {
                assert(os[p].t != os[q].t || os[p].sat != os[q].sat || os[p].sig != os[q].sig);
            }
        }
    } else {
        assert forall|q: int| !#[trigger] precedes(os, q, i) by {
            if precedes(os, q, i) {
                let z = lemma_pair_of(a, b, pairs, q, second);
                assert(os[q].key() == os[i].key());
                if z > k {
                    assert(before(pairs[k], pairs[z]));
                }
                assert(z < k);
                assert(place(pairs[z], second) is None);
            }
        }
    }
}

/// The records are those of the pairs that tell of something, and each of those is
/// among them.
proof fn lemma_records<F, G>(
    a: Seq<SignalObservation<F, G>>,
    b: Seq<SignalObservation<F, G>>,
    pairs: Seq<Pair>,
    near: Seq<Near>,
    ign: bool,
    n: int,
) -> (from: Seq<int>)
    requires
        0 <= n <= pairs.len(),
    ensures
        from.len() == differences(a, b, pairs, near, ign, n).len(),
        forall|m: int|
            0 <= m < from.len() ==> 0 <= #[trigger] from[m] < n && differences(
                a,
                b,
                pairs,
                near,
                ign,
                n,
            )[m] == pair_record(a, b, pairs, near, ign, from[m]) && tells(
                pair_record(a, b, pairs, near, ign, from[m]),
            ),
        forall|m: int, l: int|
            0 <= m < l < from.len() ==> (#[trigger] from[m]) < (#[trigger] from[l]),
        forall|k: int|
            0 <= k < n && tells(#[trigger] pair_record(a, b, pairs, near, ign, k))
                ==> from.contains(k),
    decreases n,
{
    if n == 0 {
        Seq::empty()
    } else {
        let before = lemma_records(a, b, pairs, near, ign, n - 1);
        let d = pair_record(a, b, pairs, near, ign, n - 1);
        if tells(d) {
            let from = before.push(n - 1);
            assert forall|k: int|
                0 <= k < n && tells(
                    #[trigger] pair_record(a, b, pairs, near, ign, k),
                ) implies from.contains(k) by {
                if k == n - 1 {
                    assert(from[before.len() as int] == k);
                } else {
                    assert(before.contains(k));
                    let j = choose|j: int| 0 <= j < before.len() && before[j] == k;
                    assert(from[j] == k);
                }
            }
            from
        } else {
            before
        }
    }
}

// ---- the laws ----

/// Where both streams have a signal at a time, there is a record of it if and only if
/// they differ in something that is compared, and it shows what differs and nothing
/// else: each value under its own name, on its own side.
pub proof fn lemma_common_signal_compared<F: Copy, G: Copy>(
    a: &[SignalObservation<F, G>],
    b: &[SignalObservation<F, G>],
    pairs: &[Pair],
    near: &[Near],
    ignore_blank_phase: bool,
    r: Vec<DiffRecord<F, G>>,
    i: int,
    j: int,
    k: int,
)
    requires
        is_alignment(a@, b@, pairs@),
        near@.len() == pairs@.len(),
        call_ensures(diff_observations::<F, G>, (a, b, pairs, near, ignore_blank_phase), r),
        leads(a@, i),
        leads(b@, j),
        corresponds(a@[i], b@[j]),
        0 <= k < pairs@.len(),
        pairs@[k].a matches Some(n) && n == i,
        pairs@[k].b matches Some(n) && n == j,
    ensures
        told(r@, a@[i]) <==> differ(
            a@[i].v,
            b@[j].v,
            near@[k],
            lost(a@, i),
            lost(b@, j),
            ignore_blank_phase,
        ),
        forall|m: int|
            0 <= m < r@.len() && is_about(#[trigger] r@[m], a@[i]) ==> shows(
                r@[m],
                a@[i],
                b@[j],
                near@[k],
                lost(a@, i),
                lost(b@, j),
                ignore_blank_phase,
            ),
{
    let from = lemma_records(a@, b@, pairs@, near@, ignore_blank_phase, pairs@.len() as int);
    let d = pair_record(a@, b@, pairs@, near@, ignore_blank_phase, k);
    lemma_pair_shows(a@, b@, pairs@, near@, ignore_blank_phase, k);
    if tells(d) {
        assert(from.contains(k));
        let m = choose|m: int| 0 <= m < from.len() && from[m] == k;
        assert(r@[m] == d);
        assert(is_about(r@[m], a@[i]));
    }
    assert forall|m: int| 0 <= m < r@.len() && is_about(#[trigger] r@[m], a@[i]) implies r@[m] == d
        && tells(d) by {
        let q = from[m];
        lemma_record_key(a@, b@, pairs@, near@, ignore_blank_phase, q);
        lemma_pair_unique(pairs@, q, k);
    }
}

/// The record of a pair that both streams have.
proof fn lemma_pair_shows<F, G>(
    a: Seq<SignalObservation<F, G>>,
    b: Seq<SignalObservation<F, G>>,
    pairs: Seq<Pair>,
    near: Seq<Near>,
    ign: bool,
    k: int,
)
    requires
        is_alignment(a, b, pairs),
        0 <= k < pairs.len(),
        pairs[k].a is Some,
        pairs[k].b is Some,
    ensures
        ({
            let d = pair_record(a, b, pairs, near, ign, k);
            let i = pairs[k].a->0 as int;
            let j = pairs[k].b->0 as int;
            &&& shows(d, a[i], b[j], near[k], lost(a, i), lost(b, j), ign)
            &&& tells(d) <==> differ(a[i].v, b[j].v, near[k], lost(a, i), lost(b, j), ign)
        }),
{
    let p = pairs[k];
    assert(is_first(a, p.t, p.key, p.a));
    assert(is_first(b, p.t, p.key, p.b));
    lemma_first_leads(a, p.t, p.key, p.a->0);
    lemma_first_leads(b, p.t, p.key, p.b->0);
    lemma_lost(a, b, pairs, false, k);
    lemma_lost(a, b, pairs, true, k);
    lemma_told_iff(
        pair_record(a, b, pairs, near, ign, k),
        a[p.a->0 as int],
        b[p.b->0 as int],
        near[k],
        lost(a, p.a->0 as int),
        lost(b, p.b->0 as int),
        ign,
    );
}

/// A record that shows how two observations differ tells of something where they do.
proof fn lemma_told_iff<F, G>(
    d: DiffRecord<F, G>,
    x: SignalObservation<F, G>,
    y: SignalObservation<F, G>,
    near: Near,
    lx: bool,
    ly: bool,
    ign: bool,
)
    requires
        shows(d, x, y, near, lx, ly, ign),
        d.a->0.v.arc == 0 && d.b->0.v.arc == 0,
    ensures
        tells(d) <==> differ(x.v, y.v, near, lx, ly, ign),
{
}

proof fn lemma_record_key<F, G>(
    a: Seq<SignalObservation<F, G>>,
    b: Seq<SignalObservation<F, G>>,
    pairs: Seq<Pair>,
    near: Seq<Near>,
    ign: bool,
    q: int,
)
    requires
        is_alignment(a, b, pairs),
        0 <= q < pairs.len(),
    ensures
        ({
            let d = pair_record(a, b, pairs, near, ign, q);
            &&& d.t.0 == pairs[q].t
            &&& key_number(crate::obs::SignalKey { sat: d.sat, sig: d.sig }) == pairs[q].key
        }),
{
    let p = pairs[q];
    assert(is_first(a, p.t, p.key, p.a));
    assert(is_first(b, p.t, p.key, p.b));
    if p.a is Some {
        lemma_first_leads(a, p.t, p.key, p.a->0);
    } else {
        lemma_first_leads(b, p.t, p.key, p.b->0);
    }
}

/// A signal that only one of the streams has at a time is reported with all its
/// values, on the side that has it.
pub proof fn lemma_lone_signal_reported<F: Copy, G: Copy>(
    a: &[SignalObservation<F, G>],
    b: &[SignalObservation<F, G>],
    pairs: &[Pair],
    near: &[Near],
    ignore_blank_phase: bool,
    r: Vec<DiffRecord<F, G>>,
    i: int,
)
    requires
        is_alignment(a@, b@, pairs@),
        near@.len() == pairs@.len(),
        call_ensures(diff_observations::<F, G>, (a, b, pairs, near, ignore_blank_phase), r),
    ensures
        leads(a@, i) && lacks(b@, a@[i]) ==> exists|m: int|
            0 <= m < r@.len() && is_about(#[trigger] r@[m], a@[i]) && r@[m].b is None && (
            r@[m].a matches Some(x) && shown_whole(a@[i].v, x.v)),
        leads(b@, i) && lacks(a@, b@[i]) ==> exists|m: int|
            0 <= m < r@.len() && is_about(#[trigger] r@[m], b@[i]) && r@[m].a is None && (
            r@[m].b matches Some(x) && shown_whole(b@[i].v, x.v)),
{
    let from = lemma_records(a@, b@, pairs@, near@, ignore_blank_phase, pairs@.len() as int);
    if leads(a@, i) && lacks(b@, a@[i]) {
        let k = lemma_pair_of(a@, b@, pairs@, i, false);
        assert(pairs@[k].b is None) by {
            assert(is_first(b@, pairs@[k].t, pairs@[k].key, pairs@[k].b));
            if pairs@[k].b is Some {
                let n = pairs@[k].b->0;
                lemma_first_leads(b@, pairs@[k].t, pairs@[k].key, n);
                lemma_key_number_unique(b@[n as int].key(), a@[i].key());
                assert(corresponds(b@[n as int], a@[i]));
            }
        }
        let d = pair_record(a@, b@, pairs@, near@, ignore_blank_phase, k);
        assert(tells(d) && from.contains(k));
        let m = choose|m: int| 0 <= m < from.len() && from[m] == k;
        assert(r@[m] == d);
        assert(is_about(r@[m], a@[i]));
    }
    if leads(b@, i) && lacks(a@, b@[i]) {
        let k = lemma_pair_of(a@, b@, pairs@, i, true);
        assert(pairs@[k].a is None) by {
            assert(is_first(a@, pairs@[k].t, pairs@[k].key, pairs@[k].a));
            if pairs@[k].a is Some {
                let n = pairs@[k].a->0;
                lemma_first_leads(a@, pairs@[k].t, pairs@[k].key, n);
                lemma_key_number_unique(a@[n as int].key(), b@[i].key());
                assert(corresponds(a@[n as int], b@[i]));
            }
        }
        let d = pair_record(a@, b@, pairs@, near@, ignore_blank_phase, k);
        assert(tells(d) && from.contains(k));
        let m = choose|m: int| 0 <= m < from.len() && from[m] == k;
        assert(r@[m] == d);
        assert(is_about(r@[m], b@[i]));
    }
}

/// Every record is about an observation of one of the streams, no two are about the
/// same time, satellite and signal, and they stand in the order of time.
pub proof fn lemma_records_have_a_source<F: Copy, G: Copy>(
    a: &[SignalObservation<F, G>],
    b: &[SignalObservation<F, G>],
    pairs: &[Pair],
    near: &[Near],
    ignore_blank_phase: bool,
    r: Vec<DiffRecord<F, G>>,
    m: int,
    l: int,
)
    requires
        is_alignment(a@, b@, pairs@),
        near@.len() == pairs@.len(),
        call_ensures(diff_observations::<F, G>, (a, b, pairs, near, ignore_blank_phase), r),
        0 <= m < l < r@.len(),
    ensures
        (exists|i: int| leads(a@, i) && #[trigger] is_about(r@[m], a@[i])) || (exists|i: int|
            leads(b@, i) && #[trigger] is_about(r@[m], b@[i])),
        r@[m].t.0 <= r@[l].t.0,
        r@[m].t == r@[l].t ==> r@[m].sat != r@[l].sat || r@[m].sig != r@[l].sig,
{
    let from = lemma_records(a@, b@, pairs@, near@, ignore_blank_phase, pairs@.len() as int);
    let q = from[m];
    let z = from[l];
    lemma_record_key(a@, b@, pairs@, near@, ignore_blank_phase, q);
    lemma_record_key(a@, b@, pairs@, near@, ignore_blank_phase, z);
    assert(q < z);
    assert(before(pairs@[q], pairs@[z]));
    let p = pairs@[q];
    assert(is_first(a@, p.t, p.key, p.a));
    assert(is_first(b@, p.t, p.key, p.b));
    if p.a is Some {
        lemma_first_leads(a@, p.t, p.key, p.a->0);
        assert(is_about(r@[m], a@[p.a->0 as int]));
    } else {
        lemma_first_leads(b@, p.t, p.key, p.b->0);
        assert(is_about(r@[m], b@[p.b->0 as int]));
    }
}

/// Aligning two streams pairs the leading observations of one time, satellite and
/// signal, and leaves alone those that have no counterpart.
pub proof fn lemma_alignment_pairs<F, G>(
    a: &[SignalObservation<F, G>],
    b: &[SignalObservation<F, G>],
    pairs: Vec<Pair>,
    i: int,
)
    requires
        call_ensures(align::<F, G>, (a, b), pairs),
        leads(a@, i),
    ensures
        forall|j: int|
            leads(b@, j) && #[trigger] corresponds(a@[i], b@[j]) ==> exists|k: int|
                0 <= k < pairs@.len() && ((#[trigger] pairs@[k]).a matches Some(n) && n == i) && (
                pairs@[k].b matches Some(n) && n == j),
        lacks(b@, a@[i]) ==> exists|k: int|
            0 <= k < pairs@.len() && ((#[trigger] pairs@[k]).a matches Some(n) && n == i)
                && pairs@[k].b is None,
{
    let k = lemma_pair_of(a@, b@, pairs@, i, false);
    let p = pairs@[k];
    assert(is_first(b@, p.t, p.key, p.b));
    assert forall|j: int|
        leads(b@, j) && #[trigger] corresponds(a@[i], b@[j]) implies (pairs@[k].b
        matches Some(n) && n == j) by {
        assert(is_of(b@, j, p.t, p.key));
        assert(p.b is Some);
        lemma_leads(b@, j, p.b->0);
    }
    if lacks(b@, a@[i]) && p.b is Some {
        lemma_first_leads(b@, p.t, p.key, p.b->0);
        lemma_key_number_unique(b@[p.b->0 as int].key(), a@[i].key());
        assert(corresponds(b@[p.b->0 as int], a@[i]));
    }
}

// ---- metadata ----

/// Whether the two sides of a text are shown: both as they are where they differ, else
/// neither.
pub open spec fn texts_shown(x: Seq<char>, y: Seq<char>, a: Seq<char>, b: Seq<char>) -> bool {
    if x == y {
        a.len() == 0 && b.len() == 0
    } else {
        a == x && b == y
    }
}

/// Comparing metadata shows each fact that differs under its own name, on both sides,
/// and no other; the run and the comments are never shown, and the marker only where it
/// is asked for.
pub proof fn lemma_metadata_compared<F: Copy>(
    a: &Metadata<F>,
    b: &Metadata<F>,
    near: MetadataNear,
    ignore_marker: bool,
    r: (Metadata<F>, Metadata<F>),
)
    requires
        call_ensures(diff_metadata::<F>, (a, b, near, ignore_marker), r),
    ensures
        texts_shown(a.version@, b.version@, r.0.version@, r.1.version@),
        texts_shown(a.observer@, b.observer@, r.0.observer@, r.1.observer@),
        texts_shown(a.agency@, b.agency@, r.0.agency@, r.1.agency@),
        texts_shown(a.receiver.number@, b.receiver.number@, r.0.receiver.number@, r.1.receiver.number@),
        texts_shown(a.receiver.type_@, b.receiver.type_@, r.0.receiver.type_@, r.1.receiver.type_@),
        texts_shown(
            a.receiver.version@,
            b.receiver.version@,
            r.0.receiver.version@,
            r.1.receiver.version@,
        ),
        texts_shown(a.antenna.number@, b.antenna.number@, r.0.antenna.number@, r.1.antenna.number@),
        texts_shown(a.antenna.type_@, b.antenna.type_@, r.0.antenna.type_@, r.1.antenna.type_@),
        !ignore_marker ==> {
            &&& texts_shown(a.marker.name@, b.marker.name@, r.0.marker.name@, r.1.marker.name@)
            &&& texts_shown(a.marker.number@, b.marker.number@, r.0.marker.number@, r.1.marker.number@)
            &&& texts_shown(a.marker.type_@, b.marker.type_@, r.0.marker.type_@, r.1.marker.type_@)
        },
        ignore_marker ==> {
            &&& r.0.marker.name@.len() == 0 && r.1.marker.name@.len() == 0
            &&& r.0.marker.number@.len() == 0 && r.1.marker.number@.len() == 0
            &&& r.0.marker.type_@.len() == 0 && r.1.marker.type_@.len() == 0
        },
        ({
            let far = apart(a.approx_position, b.approx_position, near.approx_position);
            shown(a.approx_position, far, r.0.approx_position) && shown(
                b.approx_position,
                far,
                r.1.approx_position,
            )
        }),
        ({
            let far = apart(a.antenna_delta, b.antenna_delta, near.antenna_delta);
            shown(a.antenna_delta, far, r.0.antenna_delta) && shown(
                b.antenna_delta,
                far,
                r.1.antenna_delta,
            )
        }),
        ({
            let far = apart(a.interval, b.interval, near.interval);
            shown(a.interval, far, r.0.interval) && shown(b.interval, far, r.1.interval)
        }),
        shown(a.leap_seconds, a.leap_seconds != b.leap_seconds, r.0.leap_seconds),
        shown(b.leap_seconds, a.leap_seconds != b.leap_seconds, r.1.leap_seconds),
        r.0.run.program@.len() == 0 && r.0.run.by@.len() == 0 && r.0.run.date is None,
        r.1.run.program@.len() == 0 && r.1.run.by@.len() == 0 && r.1.run.date is None,
        r.0.comment@.len() == 0 && r.1.comment@.len() == 0,
{
    assert(r.0@.comment.len() == r.0.comment@.len());
    assert(r.1@.comment.len() == r.1.comment@.len());
}

} // verus!
