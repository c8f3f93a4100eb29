//! Semantic observation comparator: aligns two observation streams by epoch and
//! `(sat, sig)` and reports per-field differences.
//!
//! Whether two measured values are near enough to each other is a matter of
//! floating-point arithmetic and tolerances, and is judged outside: the streams
//! are aligned, each pair is judged, and the differences are reported by the
//! judgements.

use crate::arc::{arc_moved, ArcToLl};
use crate::metadata::{no_metadata, AntennaView, MarkerView, Metadata, MetadataView, ReceiverView};
use crate::obs::{
    key_number, lemma_key_number_unique, no_values, GpsTime, SatId, SigId, SignalKey,
    SignalObservation, SignalValues,
};
use crate::text::same_bytes;
use vstd::prelude::*;
use vstd::utf8::encode_utf8_decode_utf8;

verus! {

/// One side's differing values, plus the loss-of-lock transition bit.
#[derive(Clone, Copy)]
pub struct SignalDiff<F, G> {
    pub v: SignalValues<F, G>,
    pub ll: bool,
}

impl<F, G> SignalDiff<F, G> {
    /// Whether nothing differs.
    pub open spec fn zero(self) -> bool {
        self.v.zero() && !self.ll
    }

    fn is_zero(&self) -> (r: bool)
        ensures
            r == self.zero(),
    {
        self.v.is_zero() && !self.ll
    }
}

impl<F, G> Default for SignalDiff<F, G> {
    fn default() -> (r: SignalDiff<F, G>)
        ensures
            r == (SignalDiff { v: no_values::<F, G>(), ll: false }),
    {
        SignalDiff { v: SignalValues::default(), ll: false }
    }
}

/// A difference between two streams: a side that is absent had no observation.
#[derive(Clone, Copy)]
pub struct DiffRecord<F, G> {
    pub t: GpsTime,
    pub sat: SatId,
    pub sig: SigId,
    pub a: Option<SignalDiff<F, G>>,
    pub b: Option<SignalDiff<F, G>>,
}

/// Which values of two observations are near enough to each other.
#[derive(Clone, Copy, Debug, PartialEq, Eq, Structural)]
pub struct Near {
    pub pr: bool,
    pub cp: bool,
    pub dop: bool,
    pub cn0: bool,
}

// ---- one signal ----

/// Whether two values count as the same: both are absent, or both are there and
/// near enough.
pub open spec fn agree<T>(a: Option<T>, b: Option<T>, near: bool) -> bool {
    match (a, b) {
        (None, None) => true,
        (Some(_), Some(_)) => near,
        _ => false,
    }
}

/// The value that is reported of a side: none where the sides agree.
pub open spec fn reported<T>(v: Option<T>, agree: bool) -> Option<T> {
    if agree {
        None
    } else {
        v
    }
}

/// What is reported of values `x` against values `y`.
pub open spec fn differing<F, G>(
    x: SignalValues<F, G>,
    y: SignalValues<F, G>,
    near: Near,
) -> SignalValues<F, G> {
    SignalValues {
        frq: reported(x.frq, x.frq == y.frq),
        pr: reported(x.pr, agree(x.pr, y.pr, near.pr)),
        cp: reported(x.cp, agree(x.cp, y.cp, near.cp)),
        dop: reported(x.dop, agree(x.dop, y.dop, near.dop)),
        cn0: reported(x.cn0, agree(x.cn0, y.cn0, near.cn0)),
        arc: 0,
        hc: x.hc && !y.hc,
        bt: x.bt && !y.bt,
        ll: false,
    }
}

/// What is reported of a side whose other side is absent: all of it but `arc`.
pub open spec fn whole<F, G>(v: SignalValues<F, G>) -> SignalDiff<F, G> {
    SignalDiff { v: SignalValues { arc: 0, ..v }, ll: false }
}

/// What is reported of one side against the other.
pub open spec fn one_side<F, G>(
    x: Option<SignalValues<F, G>>,
    y: Option<SignalValues<F, G>>,
    near: Near,
) -> Option<SignalDiff<F, G>> {
    match (x, y) {
        (None, _) => None,
        (Some(v), None) => Some(whole(v)),
        (Some(v), Some(w)) => Some(SignalDiff { v: differing(v, w, near), ll: false }),
    }
}

fn values_as_diff<F: Copy, G: Copy>(v: &SignalValues<F, G>) -> (r: SignalDiff<F, G>)
    ensures
        r == whole(*v),
{
    let mut d = SignalDiff { v: *v, ll: false };
    d.v.arc = 0;
    d
}

fn agreeing<T>(a: &Option<T>, b: &Option<T>, near: bool) -> (r: bool)
    ensures
        r == agree(*a, *b, near),
{
    match (a, b) {
        (None, None) => true,
        (Some(_), Some(_)) => near,
        _ => false,
    }
}

fn same_channel(a: Option<i8>, b: Option<i8>) -> (r: bool)
    ensures
        r == (a == b),
{
    match (a, b) {
        (None, None) => true,
        (Some(x), Some(y)) => x == y,
        _ => false,
    }
}

/// Compares the observations of a signal on both sides.
pub fn diff_signal<F: Copy, G: Copy>(
    a: Option<&SignalValues<F, G>>,
    b: Option<&SignalValues<F, G>>,
    near: Near,
) -> (r: (Option<SignalDiff<F, G>>, Option<SignalDiff<F, G>>))
    ensures
        r.0 == one_side(value_of(a), value_of(b), near),
        r.1 == one_side(value_of(b), value_of(a), near),
{
    match (a, b) {
        (None, None) => (None, None),
        (None, Some(b)) => (None, Some(values_as_diff(b))),
        (Some(a), None) => (Some(values_as_diff(a)), None),
        (Some(a), Some(b)) => {
            let mut ar: SignalDiff<F, G> = SignalDiff::default();
            let mut br: SignalDiff<F, G> = SignalDiff::default();
            if !same_channel(a.frq, b.frq) {
                ar.v.frq = a.frq;
                br.v.frq = b.frq;
            }
            if !agreeing(&a.pr, &b.pr, near.pr) {
                ar.v.pr = a.pr;
                br.v.pr = b.pr;
            }
            if !agreeing(&a.cp, &b.cp, near.cp) {
                ar.v.cp = a.cp;
                br.v.cp = b.cp;
            }
            if !agreeing(&a.dop, &b.dop, near.dop) {
                ar.v.dop = a.dop;
                br.v.dop = b.dop;
            }
            if !agreeing(&a.cn0, &b.cn0, near.cn0) {
                ar.v.cn0 = a.cn0;
                br.v.cn0 = b.cn0;
            }
            if a.hc != b.hc {
                ar.v.hc = a.hc;
                br.v.hc = b.hc;
            }
            if a.bt != b.bt {
                ar.v.bt = a.bt;
                br.v.bt = b.bt;
            }
            (Some(ar), Some(br))
        },
    }
}

/// The value behind an optional reference.
pub open spec fn value_of<T>(x: Option<&T>) -> Option<T> {
    match x {
        Some(v) => Some(*v),
        None => None,
    }
}

// ---- alignment ----

/// An epoch and a signal, with the places of their first observations in both
/// streams.
#[derive(Clone, Copy, Debug, PartialEq, Eq, Structural)]
pub struct Pair {
    pub t: i64,
    /// The number of the satellite and signal.
    pub key: u64,
    pub a: Option<usize>,
    pub b: Option<usize>,
}

/// Whether observation `i` of a stream is of an epoch and a signal.
pub open spec fn is_of<F, G>(os: Seq<SignalObservation<F, G>>, i: int, t: i64, key: u64) -> bool {
    0 <= i < os.len() && os[i].t.0 == t && key_number(os[i].key()) == key
}

/// Whether `i` is the place of the first observation of an epoch and a signal.
pub open spec fn is_first<F, G>(
    os: Seq<SignalObservation<F, G>>,
    t: i64,
    key: u64,
    i: Option<usize>,
) -> bool {
    match i {
        Some(n) => is_of(os, n as int, t, key) && forall|j: int|
            0 <= j < n ==> !#[trigger] is_of(os, j, t, key),
        None => forall|j: int| !#[trigger] is_of(os, j, t, key),
    }
}

/// Whether a pair stands before another.
pub open spec fn before(p: Pair, q: Pair) -> bool {
    p.t < q.t || (p.t == q.t && p.key < q.key)
}

/// Whether pairs are those of two streams: each epoch and signal that either of
/// them has, once, in order.
pub open spec fn is_alignment<F, G>(
    a: Seq<SignalObservation<F, G>>,
    b: Seq<SignalObservation<F, G>>,
    pairs: Seq<Pair>,
) -> bool {
    &&& forall|i: int, j: int|
        0 <= i < j < pairs.len() ==> before(#[trigger] pairs[i], #[trigger] pairs[j])
    &&& forall|i: int|
        0 <= i < pairs.len() ==> {
            let p = #[trigger] pairs[i];
            &&& is_first(a, p.t, p.key, p.a)
            &&& is_first(b, p.t, p.key, p.b)
            &&& p.a is Some || p.b is Some
        }
    &&& forall|i: int| 0 <= i < a.len() ==> #[trigger] covered(pairs, a[i].t.0, key_number(a[i].key()))
    &&& forall|i: int| 0 <= i < b.len() ==> #[trigger] covered(pairs, b[i].t.0, key_number(b[i].key()))
}

/// Whether there is a pair of an epoch and a signal.
pub open spec fn covered(pairs: Seq<Pair>, t: i64, key: u64) -> bool {
    exists|i: int| 0 <= i < pairs.len() && (#[trigger] pairs[i]).t == t && pairs[i].key == key
}

/// An observation in one of two streams: its time, its signal, the stream, and
/// its place.
pub type Entry = (i64, u64, u8, usize);

/// Whether an entry does not stand behind another, in lexical order.
pub open spec fn entry_le(x: Entry, y: Entry) -> bool {
    x.0 < y.0 || (x.0 == y.0 && (x.1 < y.1 || (x.1 == y.1 && (x.2 < y.2 || (x.2 == y.2 && x.3
        <= y.3)))))
}

/// Whether entries stand in lexical order.
pub open spec fn entries_sorted(v: Seq<Entry>) -> bool {
    forall|i: int, j: int| 0 <= i < j < v.len() ==> entry_le(#[trigger] v[i], #[trigger] v[j])
}

/// Sorts entries: `slice::sort_unstable`, by the order of tuples of integers,
/// which is lexical.
#[verifier::external_body]
fn sort_entries(v: &mut Vec<Entry>)
    ensures
        entries_sorted(final(v)@),
        final(v)@.to_multiset() == old(v)@.to_multiset(),
{
    v.sort_unstable()
}

/// Whether an entry is one of two streams.
spec fn is_entry<F, G>(
    a: Seq<SignalObservation<F, G>>,
    b: Seq<SignalObservation<F, G>>,
    e: Entry,
) -> bool {
    ||| e.2 == 0 && is_of(a, e.3 as int, e.0, e.1)
    ||| e.2 == 1 && is_of(b, e.3 as int, e.0, e.1)
}

fn add_entries<F, G>(v: &mut Vec<Entry>, os: &[SignalObservation<F, G>], side: u8)
    ensures
        forall|e: Entry| #[trigger]
            final(v)@.contains(e) <==> old(v)@.contains(e) || (e.2 == side && is_of(
                os@,
                e.3 as int,
                e.0,
                e.1,
            )),
{
    let ghost start = v@;
    let mut i: usize = 0;
    while i < os.len()
        invariant
            i <= os@.len(),
            forall|e: Entry| #[trigger]
                v@.contains(e) <==> start.contains(e) || (e.2 == side && e.3 < i && is_of(
                    os@,
                    e.3 as int,
                    e.0,
                    e.1,
                )),
        decreases os@.len() - i,
    {
        let ghost v0 = v@;
        let k = SignalKey { sat: os[i].sat, sig: os[i].sig };
        let e: Entry = (os[i].t.0, k.number(), side, i);
        v.push(e);
        i += 1;
        proof {
            assert forall|x: Entry| #[trigger] v@.contains(x) <==> start.contains(x) || (x.2
                == side && x.3 < i && is_of(os@, x.3 as int, x.0, x.1)) by {
                if v0.contains(x) {
                    let j = choose|j: int| 0 <= j < v0.len() && v0[j] == x;
                    assert(v@[j] == x);
                }
                if x == e {
                    assert(v@[v0.len() as int] == x);
                }
                if v@.contains(x) && x != e {
                    let j = choose|j: int| 0 <= j < v@.len() && v@[j] == x;
                    assert(v0[j] == x);
                }
            }
        }
    }
}

/// Whether `i` is the smallest place that entries of a stream give for an epoch
/// and a signal.
spec fn smallest(es: Seq<Entry>, t: i64, key: u64, side: u8, i: Option<usize>) -> bool {
    match i {
        Some(n) => es.contains((t, key, side, n)) && forall|m: usize|
            m < n ==> !#[trigger] es.contains((t, key, side, m)),
        None => forall|m: usize| !#[trigger] es.contains((t, key, side, m)),
    }
}

/// Whether pairs are those of entries, of which no more than two kinds exist.
spec fn swept(es: Seq<Entry>, pairs: Seq<Pair>) -> bool {
    &&& forall|i: int, j: int|
        0 <= i < j < pairs.len() ==> before(#[trigger] pairs[i], #[trigger] pairs[j])
    &&& forall|i: int|
        0 <= i < pairs.len() ==> {
            let p = #[trigger] pairs[i];
            &&& smallest(es, p.t, p.key, 0, p.a)
            &&& smallest(es, p.t, p.key, 1, p.b)
            &&& p.a is Some || p.b is Some
        }
    &&& forall|e: Entry| #[trigger] es.contains(e) ==> covered(pairs, e.0, e.1)
}

proof fn lemma_push_contains(es: Seq<Entry>, e: Entry)
    ensures
        forall|x: Entry| #[trigger] es.push(e).contains(x) <==> x == e || es.contains(x),
{
    assert forall|x: Entry| #[trigger] es.push(e).contains(x) <==> x == e || es.contains(x) by {
        if es.contains(x) {
            let j = choose|j: int| 0 <= j < es.len() && es[j] == x;
            assert(es.push(e)[j] == x);
        }
        if x == e {
            assert(es.push(e)[es.len() as int] == x);
        }
        if es.push(e).contains(x) && x != e {
            let j = choose|j: int| 0 <= j < es.len() + 1 && es.push(e)[j] == x;
            assert(es[j] == x);
        }
    }
}

/// One more entry, which no entry before it stands behind.
fn sweep_entry(pairs: &mut Vec<Pair>, e: Entry, es: Ghost<Seq<Entry>>)
    requires
        swept(es@, old(pairs)@),
        e.2 <= 1,
        forall|x: Entry| #[trigger] es@.contains(x) ==> entry_le(x, e) && x.2 <= 1,
    ensures
        swept(es@.push(e), final(pairs)@),
{
    let ghost v = es@;
    let ghost w = v.push(e);
    let ghost p0 = pairs@;
    proof {
        lemma_push_contains(v, e);
    }
    let n: usize = pairs.len();
    if n > 0 && pairs[n - 1].t == e.0 && pairs[n - 1].key == e.1 {
        let mut p = pairs[n - 1];
        let ghost q = p;
        if e.2 == 0 {
            if p.a.is_none() {
                p.a = Some(e.3);
            }
        } else if p.b.is_none() {
            p.b = Some(e.3);
        }
        pairs.set(n - 1, p);
        proof {
            assert(p0[n - 1] == q);
            assert(smallest(v, q.t, q.key, 0, q.a) && smallest(v, q.t, q.key, 1, q.b));
            assert(smallest(w, p.t, p.key, 0, p.a)) by {
                match q.a {
                    Some(m) => {
                        assert(v.contains((q.t, q.key, 0u8, m)));
                        assert(entry_le((q.t, q.key, 0u8, m), e));
                    },
                    None => {},
                }
            }
            assert(smallest(w, p.t, p.key, 1, p.b)) by {
                match q.b {
                    Some(m) => {
                        assert(v.contains((q.t, q.key, 1u8, m)));
                        assert(entry_le((q.t, q.key, 1u8, m), e));
                    },
                    None => {},
                }
            }
            assert forall|i: int| 0 <= i < pairs@.len() implies ({
                let r = #[trigger] pairs@[i];
                &&& smallest(w, r.t, r.key, 0, r.a)
                &&& smallest(w, r.t, r.key, 1, r.b)
                &&& r.a is Some || r.b is Some
            }) by {
                if i < n - 1 {
                    let r = p0[i];
                    assert(before(p0[i], p0[n - 1]));
                    lemma_smallest_kept(v, e, r.t, r.key, 0, r.a);
                    lemma_smallest_kept(v, e, r.t, r.key, 1, r.b);
                }
            }
            assert forall|x: Entry| #[trigger] w.contains(x) implies covered(pairs@, x.0, x.1) by {
                if x == e {
                    assert(pairs@[n - 1].t == e.0);
                } else {
                    assert(v.contains(x));
                    let j = choose|j: int|
                        0 <= j < p0.len() && (#[trigger] p0[j]).t == x.0 && p0[j].key == x.1;
                    assert(pairs@[j].t == x.0 && pairs@[j].key == x.1);
                }
            }
        }
    } else {
        let p = if e.2 == 0 {
            Pair { t: e.0, key: e.1, a: Some(e.3), b: None }
        } else {
            Pair { t: e.0, key: e.1, a: None, b: Some(e.3) }
        };
        pairs.push(p);
        proof {
            // Every pair so far has an entry, which stands before the new one.
            assert forall|i: int| 0 <= i < n implies before(#[trigger] p0[i], p) by {
                let r = p0[i];
                if i < n - 1 {
                    assert(before(p0[i], p0[n - 1]));
                }
                let last = p0[n - 1];
                match last.a {
                    Some(m) => {
                        assert(v.contains((last.t, last.key, 0u8, m)));
                    },
                    None => {
                        assert(v.contains((last.t, last.key, 1u8, last.b->0)));
                    },
                }
            }
            assert forall|i: int, j: int| 0 <= i < j < pairs@.len() implies before(
                #[trigger] pairs@[i],
                #[trigger] pairs@[j],
            ) by {
                if j < n {
                    assert(before(p0[i], p0[j]));
                } else {
                    assert(before(p0[i], p));
                }
            }
            assert forall|m: usize, side: u8| side <= 1 implies !#[trigger] v.contains(
                (e.0, e.1, side, m),
            ) by {
                if v.contains((e.0, e.1, side, m)) {
                    let j = choose|j: int|
                        0 <= j < p0.len() && (#[trigger] p0[j]).t == e.0 && p0[j].key == e.1;
                    assert(before(p0[j], p));
                }
            }
            assert forall|i: int| 0 <= i < pairs@.len() implies ({
                let r = #[trigger] pairs@[i];
                &&& smallest(w, r.t, r.key, 0, r.a)
                &&& smallest(w, r.t, r.key, 1, r.b)
                &&& r.a is Some || r.b is Some
            }) by {
                if i < n {
                    let r = p0[i];
                    assert(before(r, p));
                    lemma_smallest_kept(v, e, r.t, r.key, 0, r.a);
                    lemma_smallest_kept(v, e, r.t, r.key, 1, r.b);
                }
            }
            assert forall|x: Entry| #[trigger] w.contains(x) implies covered(pairs@, x.0, x.1) by {
                if x == e {
                    assert(pairs@[n as int].t == e.0);
                } else {
                    assert(v.contains(x));
                    let j = choose|j: int|
                        0 <= j < p0.len() && (#[trigger] p0[j]).t == x.0 && p0[j].key == x.1;
                    assert(pairs@[j].t == x.0 && pairs@[j].key == x.1);
                }
            }
        }
    }
}

proof fn lemma_smallest_kept(
    es: Seq<Entry>,
    e: Entry,
    t: i64,
    key: u64,
    side: u8,
    i: Option<usize>,
)
    requires
        smallest(es, t, key, side, i),
        e.0 != t || e.1 != key,
    ensures
        smallest(es.push(e), t, key, side, i),
{
    lemma_push_contains(es, e);
}

/// Aligns two streams: the epochs and signals that either of them has, in order,
/// with the places of their first observations.
pub fn align<F, G>(a: &[SignalObservation<F, G>], b: &[SignalObservation<F, G>]) -> (r: Vec<Pair>)
    ensures
        is_alignment(a@, b@, r@),
{
    let mut es: Vec<Entry> = Vec::new();
    let (a_len, b_len): (usize, usize) = (a.len(), b.len());
    assert(a@.len() == a_len && b@.len() == b_len);
    add_entries(&mut es, a, 0);
    add_entries(&mut es, b, 1);
    let ghost unsorted = es@;
    sort_entries(&mut es);
    let ghost sorted = es@;
    proof {
        assert forall|e: Entry| #[trigger] sorted.contains(e) <==> is_entry(a@, b@, e) by {
            unsorted.to_multiset_ensures();
            sorted.to_multiset_ensures();
            assert(unsorted.contains(e) <==> unsorted.to_multiset().count(e) > 0);
            assert(sorted.contains(e) <==> sorted.to_multiset().count(e) > 0);
        }
    }
    let mut pairs: Vec<Pair> = Vec::new();
    let mut i: usize = 0;
    assert(sorted.take(0) =~= Seq::empty());
    while i < es.len()
        invariant
            i <= es@.len(),
            es@ == sorted,
            entries_sorted(sorted),
            forall|e: Entry| #[trigger] sorted.contains(e) ==> e.2 <= 1,
            swept(sorted.take(i as int), pairs@),
        decreases es@.len() - i,
    {
        proof {
            assert forall|x: Entry| #[trigger] sorted.take(i as int).contains(x) implies entry_le(
                x,
                sorted[i as int],
            ) && x.2 <= 1 by {
                let j = choose|j: int| 0 <= j < i && sorted.take(i as int)[j] == x;
                assert(sorted[j] == x);
                assert(sorted.contains(x));
            }
            assert(sorted.contains(sorted[i as int]));
            assert(sorted.take(i + 1) =~= sorted.take(i as int).push(sorted[i as int]));
        }
        sweep_entry(&mut pairs, es[i], Ghost(sorted.take(i as int)));
        i += 1;
    }
    proof {
        assert(sorted.take(i as int) =~= sorted);
        lemma_swept_alignment(a@, b@, sorted, pairs@);
    }
    pairs
}

proof fn lemma_swept_alignment<F, G>(
    a: Seq<SignalObservation<F, G>>,
    b: Seq<SignalObservation<F, G>>,
    es: Seq<Entry>,
    pairs: Seq<Pair>,
)
    requires
        forall|e: Entry| #[trigger] es.contains(e) <==> is_entry(a, b, e),
        swept(es, pairs),
        a.len() <= usize::MAX,
        b.len() <= usize::MAX,
    ensures
        is_alignment(a, b, pairs),
{
    assert forall|i: int| 0 <= i < pairs.len() implies ({
        let p = #[trigger] pairs[i];
        &&& is_first(a, p.t, p.key, p.a)
        &&& is_first(b, p.t, p.key, p.b)
        &&& p.a is Some || p.b is Some
    }) by {
        let p = pairs[i];
        lemma_smallest_first(a, b, es, p.t, p.key, 0, p.a);
        lemma_smallest_first(a, b, es, p.t, p.key, 1, p.b);
    }
    assert forall|i: int| 0 <= i < a.len() implies #[trigger] covered(
        pairs,
        a[i].t.0,
        key_number(a[i].key()),
    ) by {
        let e: Entry = (a[i].t.0, key_number(a[i].key()), 0u8, i as usize);
        assert(is_entry(a, b, e));
        assert(es.contains(e));
    }
    assert forall|i: int| 0 <= i < b.len() implies #[trigger] covered(
        pairs,
        b[i].t.0,
        key_number(b[i].key()),
    ) by {
        let e: Entry = (b[i].t.0, key_number(b[i].key()), 1u8, i as usize);
        assert(is_entry(a, b, e));
        assert(es.contains(e));
    }
}

proof fn lemma_smallest_first<F, G>(
    a: Seq<SignalObservation<F, G>>,
    b: Seq<SignalObservation<F, G>>,
    es: Seq<Entry>,
    t: i64,
    key: u64,
    side: u8,
    i: Option<usize>,
)
    requires
        forall|e: Entry| #[trigger] es.contains(e) <==> is_entry(a, b, e),
        smallest(es, t, key, side, i),
        side <= 1,
        a.len() <= usize::MAX,
        b.len() <= usize::MAX,
    ensures
        side == 0 ==> is_first(a, t, key, i),
        side == 1 ==> is_first(b, t, key, i),
{
    let os = if side == 0 { a } else { b };
    match i {
        Some(n) => {
            assert(es.contains((t, key, side, n)));
            assert forall|j: int| 0 <= j < n implies !#[trigger] is_of(os, j, t, key) by {
                let e: Entry = (t, key, side, j as usize);
                assert(!es.contains(e));
            }
        },
        None => {
            assert forall|j: int| !#[trigger] is_of(os, j, t, key) by {
                if is_of(os, j, t, key) {
                    let e: Entry = (t, key, side, j as usize);
                    assert(es.contains(e));
                }
            }
        },
    }
}

// ---- the differences ----

/// The values that a stream has at a place.
pub open spec fn values_at<F, G>(
    os: Seq<SignalObservation<F, G>>,
    i: Option<usize>,
) -> Option<SignalValues<F, G>> {
    match i {
        Some(n) => Some(os[n as int].v),
        None => None,
    }
}

/// The place of a pair in the first stream, or in the second.
pub open spec fn place(p: Pair, second: bool) -> Option<usize> {
    if second {
        p.b
    } else {
        p.a
    }
}

/// The `arc` of a signal at the last of some pairs where a stream has it.
pub open spec fn arc_before<F, G>(
    os: Seq<SignalObservation<F, G>>,
    pairs: Seq<Pair>,
    second: bool,
    key: u64,
) -> Option<u32>
    decreases pairs.len(),
{
    if pairs.len() == 0 {
        None
    } else if pairs.last().key == key && place(pairs.last(), second) is Some {
        Some(os[place(pairs.last(), second)->0 as int].v.arc)
    } else {
        arc_before(os, pairs.drop_last(), second, key)
    }
}

/// Whether a stream loses lock at pair `i`: the signal's `arc` differs from that
/// of the previous epoch in which it was present.
pub open spec fn loses_lock<F, G>(
    os: Seq<SignalObservation<F, G>>,
    pairs: Seq<Pair>,
    second: bool,
    i: int,
) -> bool {
    match place(pairs[i], second) {
        Some(n) => arc_moved(
            arc_before(os, pairs.take(i), second, pairs[i].key),
            os[n as int].v.arc,
        ),
        None => false,
    }
}

/// What is reported of one side of a pair. Where both sides are there, the
/// loss-of-lock transition is reported when the sides differ in it; where blank
/// phases are ignored and either side has no phase, neither the phase nor the
/// transition is.
pub open spec fn side_record<F, G>(
    x: Option<SignalValues<F, G>>,
    y: Option<SignalValues<F, G>>,
    near: Near,
    x_ll: bool,
    y_ll: bool,
    ignore_blank_phase: bool,
) -> Option<SignalDiff<F, G>> {
    match (one_side(x, y, near), x, y) {
        (Some(d), Some(v), Some(w)) => if ignore_blank_phase && (v.cp is None || w.cp is None) {
            Some(SignalDiff { v: SignalValues { cp: None, ..d.v }, ll: false })
        } else {
            Some(SignalDiff { ll: x_ll && !y_ll, ..d })
        },
        (d, _, _) => d,
    }
}

/// The record of pair `i`.
pub open spec fn pair_record<F, G>(
    a: Seq<SignalObservation<F, G>>,
    b: Seq<SignalObservation<F, G>>,
    pairs: Seq<Pair>,
    near: Seq<Near>,
    ignore_blank_phase: bool,
    i: int,
) -> DiffRecord<F, G> {
    let p = pairs[i];
    let o = if p.a is Some {
        a[p.a->0 as int]
    } else {
        b[p.b->0 as int]
    };
    let x = values_at(a, p.a);
    let y = values_at(b, p.b);
    let x_ll = loses_lock(a, pairs, false, i);
    let y_ll = loses_lock(b, pairs, true, i);
    DiffRecord {
        t: GpsTime(p.t),
        sat: o.sat,
        sig: o.sig,
        a: side_record(x, y, near[i], x_ll, y_ll, ignore_blank_phase),
        b: side_record(y, x, near[i], y_ll, x_ll, ignore_blank_phase),
    }
}

/// Whether a record reports anything: a side that is absent, or a value that
/// differs.
pub open spec fn tells<F, G>(d: DiffRecord<F, G>) -> bool {
    match (d.a, d.b) {
        (Some(x), Some(y)) => !(x.zero() && y.zero()),
        _ => true,
    }
}

/// The records of the first `n` pairs that report anything.
pub open spec fn differences<F, G>(
    a: Seq<SignalObservation<F, G>>,
    b: Seq<SignalObservation<F, G>>,
    pairs: Seq<Pair>,
    near: Seq<Near>,
    ignore_blank_phase: bool,
    n: int,
) -> Seq<DiffRecord<F, G>>
    decreases n,
{
    if n <= 0 {
        Seq::empty()
    } else {
        let before = differences(a, b, pairs, near, ignore_blank_phase, n - 1);
        let d = pair_record(a, b, pairs, near, ignore_blank_phase, n - 1);
        if tells(d) {
            before.push(d)
        } else {
            before
        }
    }
}

fn transition_at<F, G>(
    arc: &mut ArcToLl,
    os: &[SignalObservation<F, G>],
    i: Option<usize>,
    pairs: Ghost<Seq<Pair>>,
    second: Ghost<bool>,
    n: Ghost<int>,
) -> (r: bool)
    requires
        0 <= n@ < pairs@.len(),
        i == place(pairs@[n@], second@),
        i matches Some(k) ==> is_of(os@, k as int, pairs@[n@].t, pairs@[n@].key),
        forall|k: SignalKey| #[trigger]
            old(arc).previous(k) == arc_before(os@, pairs@.take(n@), second@, key_number(k)),
    ensures
        r == loses_lock(os@, pairs@, second@, n@),
        forall|k: SignalKey| #[trigger]
            final(arc).previous(k) == arc_before(os@, pairs@.take(n@ + 1), second@, key_number(k)),
{
    proof {
        assert(pairs@.take(n@ + 1).drop_last() =~= pairs@.take(n@));
        assert(pairs@.take(n@ + 1).last() == pairs@[n@]);
    }
    match i {
        Some(k) => {
            let key = SignalKey { sat: os[k].sat, sig: os[k].sig };
            let r = arc.transition(key, os[k].v.arc);
            proof {
                assert forall|j: SignalKey| #[trigger] arc.previous(j) == arc_before(
                    os@,
                    pairs@.take(n@ + 1),
                    second@,
                    key_number(j),
                ) by {
                    if j != key {
                        lemma_key_number_unique(j, key);
                        assert(old(arc).previous(j) == arc_before(
                            os@,
                            pairs@.take(n@),
                            second@,
                            key_number(j),
                        ));
                    }
                }
            }
            r
        },
        None => false,
    }
}

/// Compares two observation streams, returning the list of differences. The
/// streams are aligned, and for each pair it is known which values are near.
///
/// With `ignore_blank_phase`, the carrier-phase and loss-of-lock comparison is
/// skipped for a signal whenever either side carries no carrier phase. That
/// covers a RINEX backend which cannot emit a blank phase that exists only to
/// hold a loss-of-lock flag, so it drops the signal's phase entirely.
pub fn diff_observations<F: Copy, G: Copy>(
    a: &[SignalObservation<F, G>],
    b: &[SignalObservation<F, G>],
    pairs: &[Pair],
    near: &[Near],
    ignore_blank_phase: bool,
) -> (r: Vec<DiffRecord<F, G>>)
    requires
        is_alignment(a@, b@, pairs@),
        near@.len() == pairs@.len(),
    ensures
        r@ == differences(a@, b@, pairs@, near@, ignore_blank_phase, pairs@.len() as int),
{
    let mut out: Vec<DiffRecord<F, G>> = Vec::new();
    let mut a_arc = ArcToLl::new();
    let mut b_arc = ArcToLl::new();
    let mut i: usize = 0;
    assert(out@ =~= Seq::empty());
    assert(pairs@.take(0) =~= Seq::empty());
    while i < pairs.len()
        invariant
            i <= pairs@.len(),
            is_alignment(a@, b@, pairs@),
            near@.len() == pairs@.len(),
            out@ == differences(a@, b@, pairs@, near@, ignore_blank_phase, i as int),
            forall|k: SignalKey| #[trigger]
                a_arc.previous(k) == arc_before(a@, pairs@.take(i as int), false, key_number(k)),
            forall|k: SignalKey| #[trigger]
                b_arc.previous(k) == arc_before(b@, pairs@.take(i as int), true, key_number(k)),
        decreases pairs@.len() - i,
    {
        let p = pairs[i];
        assert(is_first(a@, p.t, p.key, p.a) && is_first(b@, p.t, p.key, p.b));
        let av = match p.a {
            Some(n) => Some(&a[n].v),
            None => None,
        };
        let bv = match p.b {
            Some(n) => Some(&b[n].v),
            None => None,
        };
        let (mut af, mut bf) = diff_signal(av, bv, near[i]);
        let a_ll = transition_at(&mut a_arc, a, p.a, Ghost(pairs@), Ghost(false), Ghost(i as int));
        let b_ll = transition_at(&mut b_arc, b, p.b, Ghost(pairs@), Ghost(true), Ghost(i as int));
        let mut silent = false;
        if let (Some(x), Some(y)) = (av, bv) {
            if let (Some(mut d), Some(mut e)) = (af, bf) {
                if ignore_blank_phase && (x.cp.is_none() || y.cp.is_none()) {
                    d.v.cp = None;
                    e.v.cp = None;
                } else if a_ll != b_ll {
                    d.ll = a_ll;
                    e.ll = b_ll;
                }
                silent = d.is_zero() && e.is_zero();
                af = Some(d);
                bf = Some(e);
            }
        }
        let (sat, sig) = match p.a {
            Some(n) => (a[n].sat, a[n].sig),
            None => match p.b {
                Some(n) => (b[n].sat, b[n].sig),
                None => (SatId([0, 0, 0]), SigId([0, 0])),
            },
        };
        let d = DiffRecord { t: GpsTime(p.t), sat, sig, a: af, b: bf };
        assert(d == pair_record(a@, b@, pairs@, near@, ignore_blank_phase, i as int));
        if !silent {
            out.push(d);
        }
        i += 1;
    }
    out
}

proof fn lemma_first_unique<F, G>(
    os: Seq<SignalObservation<F, G>>,
    t: i64,
    key: u64,
    i: Option<usize>,
    j: Option<usize>,
)
    requires
        is_first(os, t, key, i),
        is_first(os, t, key, j),
    ensures
        i == j,
{
    match (i, j) {
        (Some(m), Some(n)) => {
            assert(is_of(os, m as int, t, key) && is_of(os, n as int, t, key));
        },
        (Some(m), None) => {
            assert(is_of(os, m as int, t, key));
        },
        (None, Some(n)) => {
            assert(is_of(os, n as int, t, key));
        },
        (None, None) => {},
    }
}

/// The alignment of two streams is determined by them.
pub proof fn lemma_alignment_unique<F, G>(
    a: Seq<SignalObservation<F, G>>,
    b: Seq<SignalObservation<F, G>>,
    p: Seq<Pair>,
    q: Seq<Pair>,
)
    requires
        is_alignment(a, b, p),
        is_alignment(a, b, q),
    ensures
        p == q,
{
    lemma_alignment_prefix(a, b, p, q, p.len() as int);
    if p.len() < q.len() {
        let k = lemma_pair_found(a, b, q, p, p.len() as int);
        assert(p[k] == q[k]);
        assert(before(q[k], q[p.len() as int]));
    }
    assert(p =~= q);
}

/// A pair of one alignment stands somewhere in the other.
proof fn lemma_pair_found<F, G>(
    a: Seq<SignalObservation<F, G>>,
    b: Seq<SignalObservation<F, G>>,
    p: Seq<Pair>,
    q: Seq<Pair>,
    i: int,
) -> (k: int)
    requires
        is_alignment(a, b, p),
        is_alignment(a, b, q),
        0 <= i < p.len(),
    ensures
        0 <= k < q.len(),
        q[k].t == p[i].t && q[k].key == p[i].key,
{
    let r = p[i];
    match r.a {
        Some(n) => {
            assert(is_of(a, n as int, r.t, r.key));
            assert(covered(q, a[n as int].t.0, key_number(a[n as int].key())));
        },
        None => {
            let n = r.b->0;
            assert(is_of(b, n as int, r.t, r.key));
            assert(covered(q, b[n as int].t.0, key_number(b[n as int].key())));
        },
    }
    choose|k: int| 0 <= k < q.len() && (#[trigger] q[k]).t == r.t && q[k].key == r.key
}

proof fn lemma_alignment_prefix<F, G>(
    a: Seq<SignalObservation<F, G>>,
    b: Seq<SignalObservation<F, G>>,
    p: Seq<Pair>,
    q: Seq<Pair>,
    n: int,
)
    requires
        is_alignment(a, b, p),
        is_alignment(a, b, q),
        0 <= n <= p.len(),
    ensures
        n <= q.len(),
        forall|i: int| 0 <= i < n ==> p[i] == q[i],
    decreases n,
{
    if n > 0 {
        let i = n - 1;
        lemma_alignment_prefix(a, b, p, q, i);
        let j = lemma_pair_found(a, b, p, q, i);
        if j < i {
            assert(p[j] == q[j]);
            assert(before(p[j], p[i]));
        }
        if j > i {
            let k = lemma_pair_found(a, b, q, p, i);
            assert(before(q[i], q[j]));
            if k < i {
                assert(p[k] == q[k]);
                assert(before(q[k], q[i]));
            } else if k > i {
                assert(before(p[i], p[k]));
            }
        }
        lemma_first_unique(a, p[i].t, p[i].key, p[i].a, q[i].a);
        lemma_first_unique(b, p[i].t, p[i].key, p[i].b, q[i].b);
    }
}

/// A stream does not differ from itself, as long as each value is near itself.
pub proof fn lemma_no_self_difference<F, G>(
    a: Seq<SignalObservation<F, G>>,
    pairs: Seq<Pair>,
    near: Seq<Near>,
    ignore_blank_phase: bool,
)
    requires
        is_alignment(a, a, pairs),
        near.len() == pairs.len(),
        forall|i: int|
            0 <= i < near.len() ==> #[trigger] near[i] == (Near {
                pr: true,
                cp: true,
                dop: true,
                cn0: true,
            }),
    ensures
        differences(a, a, pairs, near, ignore_blank_phase, pairs.len() as int)
            == Seq::<DiffRecord<F, G>>::empty(),
{
    assert forall|i: int| 0 <= i < pairs.len() implies (#[trigger] pairs[i]).a == pairs[i].b by {
        lemma_first_unique(a, pairs[i].t, pairs[i].key, pairs[i].a, pairs[i].b);
    }
    lemma_no_self_difference_upto(a, pairs, near, ignore_blank_phase, pairs.len() as int);
}

proof fn lemma_same_arc_before<F, G>(
    a: Seq<SignalObservation<F, G>>,
    pairs: Seq<Pair>,
    key: u64,
)
    requires
        forall|i: int| 0 <= i < pairs.len() ==> (#[trigger] pairs[i]).a == pairs[i].b,
    ensures
        arc_before(a, pairs, false, key) == arc_before(a, pairs, true, key),
    decreases pairs.len(),
{
    if pairs.len() > 0 {
        assert(pairs[pairs.len() - 1].a == pairs[pairs.len() - 1].b);
        lemma_same_arc_before(a, pairs.drop_last(), key);
    }
}

proof fn lemma_no_self_difference_upto<F, G>(
    a: Seq<SignalObservation<F, G>>,
    pairs: Seq<Pair>,
    near: Seq<Near>,
    ignore_blank_phase: bool,
    n: int,
)
    requires
        0 <= n <= pairs.len(),
        near.len() == pairs.len(),
        forall|i: int| 0 <= i < pairs.len() ==> (#[trigger] pairs[i]).a == pairs[i].b,
        forall|i: int| 0 <= i < pairs.len() ==> (#[trigger] pairs[i]).a is Some || pairs[i].b is Some,
        forall|i: int|
            0 <= i < near.len() ==> #[trigger] near[i] == (Near {
                pr: true,
                cp: true,
                dop: true,
                cn0: true,
            }),
    ensures
        differences(a, a, pairs, near, ignore_blank_phase, n) == Seq::<DiffRecord<F, G>>::empty(),
    decreases n,
{
    if n > 0 {
        let i = n - 1;
        lemma_no_self_difference_upto(a, pairs, near, ignore_blank_phase, i);
        let p = pairs[i];
        assert(p.a == p.b && p.a is Some);
        lemma_same_arc_before(a, pairs.take(i), p.key);
        let d = pair_record(a, a, pairs, near, ignore_blank_phase, i);
        assert(near[i].pr && near[i].cp && near[i].dop && near[i].cn0);
        assert(d.a->0.zero() && d.b->0.zero());
    }
}

// ---- metadata ----

/// Which numbers of two metadata records are near enough to each other.
#[derive(Clone, Copy, Debug, PartialEq, Eq, Structural)]
pub struct MetadataNear {
    pub approx_position: bool,
    pub antenna_delta: bool,
    pub interval: bool,
}

/// The text that is reported of a side: none where the sides agree.
pub open spec fn reported_text(x: Seq<char>, y: Seq<char>) -> Seq<char> {
    if x == y {
        Seq::empty()
    } else {
        x
    }
}

/// What is reported of a metadata record against another. The run and the
/// comments are ignored.
pub open spec fn metadata_side<F>(
    x: MetadataView<F>,
    y: MetadataView<F>,
    near: MetadataNear,
    ignore_marker: bool,
) -> MetadataView<F> {
    MetadataView {
        version: reported_text(x.version, y.version),
        marker: if ignore_marker {
            no_metadata::<F>().marker
        } else {
            MarkerView {
                name: reported_text(x.marker.name, y.marker.name),
                number: reported_text(x.marker.number, y.marker.number),
                type_: reported_text(x.marker.type_, y.marker.type_),
            }
        },
        observer: reported_text(x.observer, y.observer),
        agency: reported_text(x.agency, y.agency),
        receiver: ReceiverView {
            number: reported_text(x.receiver.number, y.receiver.number),
            type_: reported_text(x.receiver.type_, y.receiver.type_),
            version: reported_text(x.receiver.version, y.receiver.version),
        },
        antenna: AntennaView {
            number: reported_text(x.antenna.number, y.antenna.number),
            type_: reported_text(x.antenna.type_, y.antenna.type_),
        },
        approx_position: reported(
            x.approx_position,
            agree(x.approx_position, y.approx_position, near.approx_position),
        ),
        antenna_delta: reported(
            x.antenna_delta,
            agree(x.antenna_delta, y.antenna_delta, near.antenna_delta),
        ),
        interval: reported(x.interval, agree(x.interval, y.interval, near.interval)),
        leap_seconds: reported(x.leap_seconds, x.leap_seconds == y.leap_seconds),
        ..no_metadata::<F>()
    }
}

/// Whether two texts are the same.
pub fn same_text(a: &str, b: &str) -> (r: bool)
    ensures
        r == (a@ == b@),
{
    proof {
        encode_utf8_decode_utf8(a@);
        encode_utf8_decode_utf8(b@);
    }
    same_bytes(a.as_bytes(), b.as_bytes())
}

fn text_side(x: &String, y: &String) -> (r: String)
    ensures
        r@ == reported_text(x@, y@),
{
    if same_text(x.as_str(), y.as_str()) {
        let r = String::new();
        assert(r@ =~= Seq::empty());
        r
    } else {
        x.clone()
    }
}

fn same_leap(a: Option<i16>, b: Option<i16>) -> (r: bool)
    ensures
        r == (a == b),
{
    match (a, b) {
        (None, None) => true,
        (Some(x), Some(y)) => x == y,
        _ => false,
    }
}

fn metadata_one_side<F: Copy>(
    x: &Metadata<F>,
    y: &Metadata<F>,
    near: MetadataNear,
    ignore_marker: bool,
) -> (r: Metadata<F>)
    ensures
        r@ == metadata_side(x@, y@, near, ignore_marker),
{
    let mut o: Metadata<F> = Metadata::default();
    o.version = text_side(&x.version, &y.version);
    if !ignore_marker {
        o.marker.name = text_side(&x.marker.name, &y.marker.name);
        o.marker.number = text_side(&x.marker.number, &y.marker.number);
        o.marker.type_ = text_side(&x.marker.type_, &y.marker.type_);
    }
    o.observer = text_side(&x.observer, &y.observer);
    o.agency = text_side(&x.agency, &y.agency);
    o.receiver.number = text_side(&x.receiver.number, &y.receiver.number);
    o.receiver.type_ = text_side(&x.receiver.type_, &y.receiver.type_);
    o.receiver.version = text_side(&x.receiver.version, &y.receiver.version);
    o.antenna.number = text_side(&x.antenna.number, &y.antenna.number);
    o.antenna.type_ = text_side(&x.antenna.type_, &y.antenna.type_);
    if !agreeing(&x.approx_position, &y.approx_position, near.approx_position) {
        o.approx_position = x.approx_position;
    }
    if !agreeing(&x.antenna_delta, &y.antenna_delta, near.antenna_delta) {
        o.antenna_delta = x.antenna_delta;
    }
    if !agreeing(&x.interval, &y.interval, near.interval) {
        o.interval = x.interval;
    }
    if !same_leap(x.leap_seconds, y.leap_seconds) {
        o.leap_seconds = x.leap_seconds;
    }
    o
}

/// Compares two metadata records, returning the differing fields per side. Run
/// and comments are always ignored. With `ignore_marker`, the marker fields are
/// ignored too: of two converters of the same RTCM stream one may use the station
/// id as the marker name, the other as its number.
pub fn diff_metadata<F: Copy>(
    a: &Metadata<F>,
    b: &Metadata<F>,
    near: MetadataNear,
    ignore_marker: bool,
) -> (r: (Metadata<F>, Metadata<F>))
    ensures
        r.0@ == metadata_side(a@, b@, near, ignore_marker),
        r.1@ == metadata_side(b@, a@, near, ignore_marker),
{
    let left = metadata_one_side(a, b, near, ignore_marker);
    let right = metadata_one_side(b, a, near, ignore_marker);
    (left, right)
}

/// A record does not differ from itself, as long as each number is near itself.
pub proof fn lemma_no_self_metadata_difference<F>(m: MetadataView<F>, ignore_marker: bool)
    ensures
        metadata_side(
            m,
            m,
            MetadataNear { approx_position: true, antenna_delta: true, interval: true },
            ignore_marker,
        ).zero(),
{
}

} // verus!
