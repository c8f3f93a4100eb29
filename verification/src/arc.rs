//! Loss-of-lock handling.
//!
//! On the wire, loss of lock is the counter `arc`, which never decreases for a
//! satellite and signal. Converters, however, only ever detect a slip: a flag on
//! each observation. They emit that flag and [`LossOfLockSink`] accumulates it
//! into `arc`. [`ArcToLl`] turns `arc` back into the transition between
//! observations that feeds the RINEX loss-of-lock indicator and the diff.

use crate::error::Result;
use crate::keymap::{fx_get, fx_insert, fx_value};
use crate::metadata::{Metadata, MetadataView};
use crate::obs::{
    key_number, lemma_key_number_unique, SignalKey, SignalObservation, SignalValues,
};
use crate::sink::{lemma_received_push, received, Sink};
use rustc_hash::FxHashMap;
use vstd::prelude::*;

verus! {

/// One more, up to the largest count there is.
pub open spec fn next_arc(n: u32) -> u32 {
    if n == u32::MAX {
        n
    } else {
        (n + 1) as u32
    }
}

/// The observation that leaves the accumulator, where the counter stood at `n`:
/// the flag is consumed, and `arc` is the counter after it.
pub open spec fn with_arc<F, G>(o: SignalObservation<F, G>, n: u32) -> SignalObservation<F, G> {
    SignalObservation {
        v: SignalValues {
            arc: if o.v.ll {
                next_arc(n)
            } else {
                n
            },
            ll: false,
            ..o.v
        },
        ..o
    }
}

/// Streaming converter stage: turns the loss-of-lock flag of each observation
/// into the counter `arc` of its satellite and signal.
///
/// It belongs upstream of decimation, so that a slip inside a dropped gap still
/// raises `arc` and surfaces on the next kept epoch.
pub struct LossOfLockSink<S> {
    sink: S,
    arc: FxHashMap<u64, u32>,
}

impl<S> LossOfLockSink<S> {
    /// The wrapped sink.
    pub closed spec fn wrapped(self) -> S {
        self.sink
    }

    /// The counter of a satellite and signal.
    pub closed spec fn counter(self, k: SignalKey) -> u32 {
        match fx_value(self.arc@, key_number(k)) {
            Some(n) => n,
            None => 0,
        }
    }

    pub fn new(sink: S) -> (r: LossOfLockSink<S>)
        ensures
            r.wrapped() == sink,
            forall|k: SignalKey| #[trigger] r.counter(k) == 0,
    {
        LossOfLockSink { sink, arc: FxHashMap::default() }
    }

    /// The wrapped sink.
    pub fn inner(&self) -> (r: &S)
        ensures
            *r == self.wrapped(),
    {
        &self.sink
    }

    /// Returns the wrapped sink (e.g. to recover a buffered result).
    pub fn into_inner(self) -> (r: S)
        ensures
            r == self.wrapped(),
    {
        self.sink
    }
}

impl<F: Copy, G: Copy, S: Sink<F, G>> Sink<F, G> for LossOfLockSink<S> {
    open spec fn metadata_step(
        pre: LossOfLockSink<S>,
        m: MetadataView<F>,
        post: LossOfLockSink<S>,
        r: Result<()>,
    ) -> bool {
        &&& S::metadata_step(pre.wrapped(), m, post.wrapped(), r)
        &&& forall|k: SignalKey| #[trigger] post.counter(k) == pre.counter(k)
    }

    open spec fn observation_step(
        pre: LossOfLockSink<S>,
        o: SignalObservation<F, G>,
        post: LossOfLockSink<S>,
        r: Result<()>,
    ) -> bool {
        let out = with_arc(o, pre.counter(o.key()));
        &&& S::observation_step(pre.wrapped(), out, post.wrapped(), r)
        &&& post.counter(o.key()) == out.v.arc
        &&& forall|k: SignalKey| k != o.key() ==> #[trigger] post.counter(k) == pre.counter(k)
    }

    open spec fn flush_step(pre: LossOfLockSink<S>, post: LossOfLockSink<S>, r: Result<()>) -> bool {
        &&& S::flush_step(pre.wrapped(), post.wrapped(), r)
        &&& forall|k: SignalKey| #[trigger] post.counter(k) == pre.counter(k)
    }

    fn metadata(&mut self, m: &Metadata<F>) -> (r: Result<()>) {
        self.sink.metadata(m)
    }

    fn observation(&mut self, o: &SignalObservation<F, G>) -> (r: Result<()>) {
        let mut out = *o;
        let k = SignalKey { sat: o.sat, sig: o.sig };
        let mut counter: u32 = match fx_get(&self.arc, k.number()) {
            Some(n) => n,
            None => 0,
        };
        if o.v.ll && counter < u32::MAX {
            counter += 1;
        }
        fx_insert(&mut self.arc, k.number(), counter);
        out.v.arc = counter;
        out.v.ll = false;
        proof {
            broadcast use lemma_key_number_unique;

            assert(out == with_arc(*o, old(self).counter(o.key())));
        }
        self.sink.observation(&out)
    }

    fn flush(&mut self) -> (r: Result<()>) {
        self.sink.flush()
    }
}

/// Derives the RINEX loss-of-lock bit from `arc`: it is set when the `arc` of a
/// signal differs from its value at the previous observation.
pub struct ArcToLl {
    prev: FxHashMap<u64, u32>,
}

impl ArcToLl {
    /// The `arc` of the previous observation of a satellite and signal.
    pub closed spec fn previous(self, k: SignalKey) -> Option<u32> {
        fx_value(self.prev@, key_number(k))
    }

    /// Whether nothing but what was seen of `k` changed, and that to `arc`.
    pub open spec fn seen(pre: ArcToLl, k: SignalKey, arc: u32, post: ArcToLl) -> bool {
        &&& post.previous(k) == Some(arc)
        &&& forall|j: SignalKey| j != k ==> #[trigger] post.previous(j) == pre.previous(j)
    }

    pub fn new() -> (r: ArcToLl)
        ensures
            forall|k: SignalKey| #[trigger] r.previous(k) is None,
    {
        ArcToLl { prev: FxHashMap::default() }
    }

    /// The loss-of-lock bit for a RINEX writer: a first-seen signal reports a
    /// slip when its `arc` is not 0, so any arc carried into the file is encoded.
    pub fn lli(&mut self, k: SignalKey, arc: u32) -> (r: bool)
        ensures
            ArcToLl::seen(*old(self), k, arc, *final(self)),
            r == arc_changed(old(self).previous(k), arc),
    {
        proof {
            broadcast use lemma_key_number_unique;

        }
        match fx_insert(&mut self.prev, k.number(), arc) {
            Some(prev) => arc != prev,
            None => arc != 0,
        }
    }

    /// Loss-of-lock transition for the diff: a first-seen signal reports none,
    /// since there is nothing to compare against.
    pub fn transition(&mut self, k: SignalKey, arc: u32) -> (r: bool)
        ensures
            ArcToLl::seen(*old(self), k, arc, *final(self)),
            r == arc_moved(old(self).previous(k), arc),
    {
        proof {
            broadcast use lemma_key_number_unique;

        }
        match fx_insert(&mut self.prev, k.number(), arc) {
            Some(prev) => arc != prev,
            None => false,
        }
    }
}

impl Default for ArcToLl {
    fn default() -> (r: ArcToLl)
        ensures
            forall|k: SignalKey| #[trigger] r.previous(k) is None,
    {
        ArcToLl::new()
    }
}

/// Whether a writer reports a slip: `arc` differs from the previous one, where a
/// signal not seen before counts as having stood at 0.
pub open spec fn arc_changed(prev: Option<u32>, arc: u32) -> bool {
    match prev {
        Some(p) => arc != p,
        None => arc != 0,
    }
}

/// Whether `arc` differs from that of a previous observation.
pub open spec fn arc_moved(prev: Option<u32>, arc: u32) -> bool {
    match prev {
        Some(p) => arc != p,
        None => false,
    }
}

// ---- whole streams ----

/// The counter of `k` after the observations `os`, from 0: how many of them
/// carry the loss-of-lock flag.
pub open spec fn arc_after<F, G>(os: Seq<SignalObservation<F, G>>, k: SignalKey) -> u32
    decreases os.len(),
{
    if os.len() == 0 {
        0
    } else {
        let n = arc_after(os.drop_last(), k);
        if os.last().key() == k && os.last().v.ll {
            next_arc(n)
        } else {
            n
        }
    }
}

/// The observations that leave an accumulator that receives `os`.
pub open spec fn accumulated<F, G>(os: Seq<SignalObservation<F, G>>) -> Seq<
    SignalObservation<F, G>,
> {
    Seq::new(os.len(), |i: int| with_arc(os[i], arc_after(os.take(i), os[i].key())))
}

/// The loss-of-lock bits that a writer reports for the observations `os`: each
/// is compared with the observation of the same satellite and signal before it.
pub open spec fn last_arc<F, G>(os: Seq<SignalObservation<F, G>>, k: SignalKey) -> Option<u32>
    decreases os.len(),
{
    if os.len() == 0 {
        None
    } else if os.last().key() == k {
        Some(os.last().v.arc)
    } else {
        last_arc(os.drop_last(), k)
    }
}

/// `arc` never decreases: of two observations of the same satellite and signal
/// that leave the accumulator, the later has no smaller `arc`. And the flag never
/// leaks past it.
pub proof fn lemma_arc_never_decreases<F, G>(os: Seq<SignalObservation<F, G>>, i: int, j: int)
    requires
        0 <= i <= j < os.len(),
        os[i].key() == os[j].key(),
    ensures
        accumulated(os)[i].v.arc <= accumulated(os)[j].v.arc,
        !accumulated(os)[i].v.ll,
{
    let k = os[i].key();
    if i < j {
        lemma_arc_after_grows(os, k, i + 1, j);
        assert(os.take(i + 1).drop_last() =~= os.take(i));
        assert(os.take(i + 1).last() == os[i]);
    }
}

proof fn lemma_arc_after_grows<F, G>(
    os: Seq<SignalObservation<F, G>>,
    k: SignalKey,
    i: int,
    j: int,
)
    requires
        0 <= i <= j <= os.len(),
    ensures
        arc_after(os.take(i), k) <= arc_after(os.take(j), k),
    decreases j - i,
{
    if i < j {
        lemma_arc_after_grows(os, k, i, j - 1);
        assert(os.take(j).drop_last() =~= os.take(j - 1));
    }
}

/// The counter of a signal after some observations is the `arc` of the last of
/// them, and 0 where there is none.
pub proof fn lemma_last_arc<F, G>(os: Seq<SignalObservation<F, G>>, k: SignalKey)
    ensures
        arc_after(os, k) == (match last_arc(accumulated(os), k) {
            Some(n) => n,
            None => 0,
        }),
    decreases os.len(),
{
    if os.len() > 0 {
        let p = os.drop_last();
        lemma_last_arc(p, k);
        assert(accumulated(os).drop_last() =~= accumulated(p)) by {
            assert forall|i: int| 0 <= i < p.len() implies accumulated(os)[i]
                == accumulated(p)[i] by {
                assert(os.take(i) =~= p.take(i));
            }
        }
        assert(os.take(os.len() - 1) =~= p);
        assert(accumulated(os).last().key() == os.last().key());
    }
}

/// The writer's loss-of-lock bit is the flag that the converter emitted: turning
/// flags into `arc` and `arc` back into flags gives the flags, as long as no
/// counter has reached its end.
pub proof fn lemma_slip_round_trip<F, G>(os: Seq<SignalObservation<F, G>>, i: int)
    requires
        0 <= i < os.len(),
        arc_after(os.take(i), os[i].key()) < u32::MAX,
    ensures
        arc_changed(
            last_arc(accumulated(os).take(i), os[i].key()),
            accumulated(os)[i].v.arc,
        ) == os[i].v.ll,
{
    lemma_last_arc(os.take(i), os[i].key());
    assert(accumulated(os).take(i) =~= accumulated(os.take(i))) by {
        assert forall|j: int| 0 <= j < i implies accumulated(os).take(i)[j] == accumulated(
            os.take(i),
        )[j] by {
            assert(os.take(j) =~= os.take(i).take(j));
        }
    }
}

/// A slip in a gap surfaces: if observations of a signal between two kept ones
/// carry the flag, the later kept one has a larger `arc`, so a writer that sees
/// only the kept ones reports it.
pub proof fn lemma_slip_survives_gap<F, G>(
    os: Seq<SignalObservation<F, G>>,
    i: int,
    slip: int,
    j: int,
)
    requires
        0 <= i < slip <= j < os.len(),
        os[i].key() == os[slip].key(),
        os[i].key() == os[j].key(),
        os[slip].v.ll,
        arc_after(os.take(slip), os[slip].key()) < u32::MAX,
    ensures
        accumulated(os)[i].v.arc < accumulated(os)[j].v.arc,
        arc_changed(Some(accumulated(os)[i].v.arc), accumulated(os)[j].v.arc),
{
    let k = os[i].key();
    assert(os.take(i + 1).drop_last() =~= os.take(i));
    assert(os.take(slip + 1).drop_last() =~= os.take(slip));
    assert(os.take(j + 1).drop_last() =~= os.take(j));
    lemma_arc_after_grows(os, k, i + 1, slip);
    lemma_arc_after_grows(os, k, slip + 1, j + 1);
}

/// An accumulator that has received `os` has passed them on with `arc` in place
/// of the flag: each observation counts the flags of its satellite and signal up
/// to and with its own.
pub proof fn lemma_accumulates<F: Copy, G: Copy, S: Sink<F, G>>(
    pre: LossOfLockSink<S>,
    os: Seq<SignalObservation<F, G>>,
    post: LossOfLockSink<S>,
    r: Result<()>,
)
    requires
        forall|k: SignalKey| #[trigger] pre.counter(k) == 0,
        received::<F, G, LossOfLockSink<S>>(pre, os, post, r),
    ensures
        received::<F, G, S>(pre.wrapped(), accumulated(os), post.wrapped(), r),
        forall|k: SignalKey| #[trigger] post.counter(k) == arc_after(os, k),
    decreases os.len(),
{
    if os.len() > 0 {
        let p = os.drop_last();
        let mid = choose|mid: LossOfLockSink<S>|
            {
                &&& received::<F, G, LossOfLockSink<S>>(pre, p, mid, Ok(()))
                &&& #[trigger] LossOfLockSink::<S>::observation_step(mid, os.last(), post, r)
            };
        lemma_accumulates(pre, p, mid, Ok(()));
        let out = with_arc(os.last(), mid.counter(os.last().key()));
        lemma_received_push(
            pre.wrapped(),
            accumulated(p),
            mid.wrapped(),
            out,
            post.wrapped(),
            r,
        );
        assert(accumulated(os) =~= accumulated(p).push(out)) by {
            assert(os.take(os.len() - 1) =~= p);
            assert forall|i: int| 0 <= i < p.len() implies accumulated(os)[i]
                == accumulated(p)[i] by {
                assert(os.take(i) =~= p.take(i));
            }
        }
    }
}

} // verus!
