//! The [`Sink`] pipeline: converters push records through optional filters
//! (decimation, require-carrier-phase) into an output writer.

use crate::error::{Error, Result};
use crate::metadata::{Metadata, MetadataView};
use crate::obs::{GpsTime, SignalObservation, TICK_NS};
use vstd::arithmetic::div_mod::{
    lemma_div_pos_is_pos, lemma_fundamental_div_mod, lemma_fundamental_div_mod_converse,
    lemma_mod_multiples_vanish,
};
use vstd::prelude::*;

verus! {

/// Receives conversion records. Errors are output errors from the writer or
/// conversion errors surfaced by a downstream sink.
///
/// What a sink does with a record is its own affair: each method is described by
/// a relation between the sink before the call, the record, the sink after the
/// call and the result.
pub trait Sink<F, G>: Sized {
    /// What receiving a metadata record does; by default, anything.
    open spec fn metadata_step(pre: Self, m: MetadataView<F>, post: Self, r: Result<()>) -> bool {
        true
    }

    /// What receiving an observation does; by default, anything.
    open spec fn observation_step(
        pre: Self,
        o: SignalObservation<F, G>,
        post: Self,
        r: Result<()>,
    ) -> bool {
        true
    }

    /// What a flush does; by default, anything.
    open spec fn flush_step(pre: Self, post: Self, r: Result<()>) -> bool {
        true
    }

    fn metadata(&mut self, m: &Metadata<F>) -> (r: Result<()>)
        ensures
            Self::metadata_step(*old(self), m@, *final(self), r),
    ;

    fn observation(&mut self, o: &SignalObservation<F, G>) -> (r: Result<()>)
        ensures
            Self::observation_step(*old(self), *o, *final(self), r),
    ;

    fn flush(&mut self) -> (r: Result<()>)
        ensures
            Self::flush_step(*old(self), *final(self), r),
    ;
}

/// Whether a sink comes from `pre` to `post` by receiving the observations `os`
/// in order, the last of them with the result `r` and all others with success.
pub open spec fn received<F, G, S: Sink<F, G>>(
    pre: S,
    os: Seq<SignalObservation<F, G>>,
    post: S,
    r: Result<()>,
) -> bool
    decreases os.len(),
{
    if os.len() == 0 {
        post == pre && r == Ok::<(), Error>(())
    } else {
        exists|mid: S|
            {
                &&& received::<F, G, S>(pre, os.drop_last(), mid, Ok(()))
                &&& #[trigger] S::observation_step(mid, os.last(), post, r)
            }
    }
}

/// There is one success that carries nothing.
pub proof fn lemma_plain_ok(r: Result<()>)
    ensures
        r is Ok ==> r == Ok::<(), Error>(()),
{
    match r {
        Ok(u) => {
            assert(u == ());
        },
        Err(_) => {},
    }
}

/// One more observation extends what a sink has received.
pub proof fn lemma_received_push<F, G, S: Sink<F, G>>(
    pre: S,
    os: Seq<SignalObservation<F, G>>,
    mid: S,
    o: SignalObservation<F, G>,
    post: S,
    r: Result<()>,
)
    requires
        received::<F, G, S>(pre, os, mid, Ok(())),
        S::observation_step(mid, o, post, r),
    ensures
        received::<F, G, S>(pre, os.push(o), post, r),
{
    assert(os.push(o).drop_last() =~= os);
    assert(os.push(o).last() == o);
}

/// 100 ms in ticks.
pub const DECIMATION_ROUND_TICKS: i64 = 1_000_000;

/// Nanoseconds in a day.
pub const DAY_NS: i64 = 86_400_000_000_000;

/// Whether an interval in nanoseconds may be used for decimation: at least a
/// second, in whole ticks, and a divisor of a day.
pub open spec fn interval_ok(ns: int) -> bool {
    ns >= 1_000_000_000 && ns % 100 == 0 && DAY_NS as int % ns == 0
}

/// Validates a decimation interval in nanoseconds and returns it in ticks.
pub fn decimation_interval_ticks(interval_ns: i64) -> (r: Result<i64>)
    ensures
        interval_ns < 1_000_000_000 ==> (r matches Err(Error::Interval(m)) && m@
            == "decimation interval must be at least 1 second"@),
        interval_ns >= 1_000_000_000 && interval_ns as int % 100 != 0 ==> (r matches Err(
            Error::Interval(m),
        ) && m@ == "decimation interval must be a multiple of 100ns"@),
        interval_ns >= 1_000_000_000 && interval_ns as int % 100 == 0 && DAY_NS as int
            % interval_ns as int != 0 ==> (r matches Err(Error::Interval(m)) && m@
            == "decimation interval must divide one GPS day exactly"@),
        interval_ok(interval_ns as int) ==> r == Ok::<i64, Error>(
            (interval_ns as int / 100) as i64,
        ),
{
    if interval_ns < 1_000_000_000 {
        return Err(
            Error::Interval("decimation interval must be at least 1 second".to_owned()),
        );
    }
    if interval_ns % TICK_NS != 0 {
        return Err(
            Error::Interval("decimation interval must be a multiple of 100ns".to_owned()),
        );
    }
    if DAY_NS % interval_ns != 0 {
        return Err(
            Error::Interval("decimation interval must divide one GPS day exactly".to_owned()),
        );
    }
    Ok(interval_ns / TICK_NS)
}

/// Validates a decimation interval in nanoseconds.
pub fn validate_decimation_interval(interval_ns: i64) -> (r: Result<()>)
    ensures
        r is Ok <==> interval_ok(interval_ns as int),
        interval_ns < 1_000_000_000 ==> (r matches Err(Error::Interval(m)) && m@
            == "decimation interval must be at least 1 second"@),
        interval_ns >= 1_000_000_000 && interval_ns as int % 100 != 0 ==> (r matches Err(
            Error::Interval(m),
        ) && m@ == "decimation interval must be a multiple of 100ns"@),
        interval_ns >= 1_000_000_000 && interval_ns as int % 100 == 0 && !interval_ok(
            interval_ns as int,
        ) ==> (r matches Err(Error::Interval(m)) && m@
            == "decimation interval must divide one GPS day exactly"@),
{
    match decimation_interval_ticks(interval_ns) {
        Ok(_) => Ok(()),
        Err(e) => Err(e),
    }
}

/// `t` rounded to the nearest multiple of `unit`, halves away from zero.
pub open spec fn rounded(t: int, unit: int) -> int {
    if t < 0 {
        -(((-t + unit / 2) / unit) * unit)
    } else {
        ((t + unit / 2) / unit) * unit
    }
}

fn round_time(t: i128, unit: i128) -> (r: i128)
    requires
        unit > 0,
        -0x1_0000_0000_0000_0000 <= t <= 0x1_0000_0000_0000_0000,
        unit <= 0x1_0000_0000_0000_0000,
    ensures
        r == rounded(t as int, unit as int),
        -0x10_0000_0000_0000_0000 <= r <= 0x10_0000_0000_0000_0000,
    decreases (if t < 0 { 1int } else { 0 }),
{
    if t < 0 {
        -round_time(-t, unit)
    } else {
        proof {
            lemma_fundamental_div_mod(t + unit as int / 2, unit as int);
            assert(((t + unit as int / 2) / unit as int) * unit == unit * ((t + unit as int / 2)
                / unit as int)) by (nonlinear_arith);
            lemma_div_pos_is_pos(t + unit as int / 2, unit as int);
        }
        (t + unit / 2) / unit * unit
    }
}

/// Whether the label of `t`, rounded to 100 ms, lies on the grid of `interval`.
pub open spec fn on_grid(t: GpsTime, interval: i64) -> bool {
    interval != 0 && rounded(t.0 as int, DECIMATION_ROUND_TICKS as int) % interval as int == 0
}

/// Emits only observations whose rounded epoch label is on the interval grid.
pub struct DecimationSink<S> {
    pub sink: S,
    pub interval: i64,
}

impl<S> DecimationSink<S> {
    pub fn new(sink: S, interval_ticks: i64) -> (r: DecimationSink<S>)
        requires
            interval_ticks != 0,
        ensures
            r == (DecimationSink { sink: sink, interval: interval_ticks }),
    {
        DecimationSink { sink, interval: interval_ticks }
    }

    /// Whether the rounded label of `t` is on the grid.
    pub fn on_grid(&self, t: GpsTime) -> (r: bool)
        ensures
            r == on_grid(t, self.interval),
    {
        if self.interval == 0 {
            return false;
        }
        let rounded_t: i128 = round_time(t.0 as i128, DECIMATION_ROUND_TICKS as i128);
        let unit: i128 = if self.interval < 0 {
            -(self.interval as i128)
        } else {
            self.interval as i128
        };
        let size: i128 = if rounded_t < 0 {
            -rounded_t
        } else {
            rounded_t
        };
        proof {
            lemma_divides_abs(rounded_t as int, self.interval as int);
        }
        size % unit == 0
    }
}

/// Whether one number divides another does not depend on their signs.
proof fn lemma_divides_abs(a: int, b: int)
    requires
        b != 0,
    ensures
        ({
            let x = if a < 0 { -a } else { a };
            let y = if b < 0 { -b } else { b };
            a % b == 0 <==> x % y == 0
        }),
{
    let x = if a < 0 { -a } else { a };
    let y = if b < 0 { -b } else { b };
    let same = (a < 0) == (b < 0);
    lemma_fundamental_div_mod(a, b);
    lemma_fundamental_div_mod(x, y);
    if a % b == 0 {
        let q = if same { a / b } else { -(a / b) };
        assert(x == q * y) by (nonlinear_arith)
            requires
                a == b * (a / b),
                q == (if same { a / b } else { -(a / b) }),
                same == ((a < 0) == (b < 0)),
                x == (if a < 0 { -a } else { a }),
                y == (if b < 0 { -b } else { b }),
        ;
        lemma_fundamental_div_mod_converse(x, y, q, 0);
    }
    if x % y == 0 {
        let q = if same { x / y } else { -(x / y) };
        let m = q - a / b;
        let r = a % b;
        assert(b * m == r) by (nonlinear_arith)
            requires
                a == b * (a / b) + r,
                x == y * (x / y),
                m == q - a / b,
                q == (if same { x / y } else { -(x / y) }),
                same == ((a < 0) == (b < 0)),
                x == (if a < 0 { -a } else { a }),
                y == (if b < 0 { -b } else { b }),
        ;
        assert(r == 0) by (nonlinear_arith)
            requires
                b * m == r,
                0 <= r < y,
                y == (if b < 0 { -b } else { b }),
        ;
    }
}

impl<F, G, S: Sink<F, G>> Sink<F, G> for DecimationSink<S> {
    open spec fn metadata_step(
        pre: DecimationSink<S>,
        m: MetadataView<F>,
        post: DecimationSink<S>,
        r: Result<()>,
    ) -> bool {
        post.interval == pre.interval && S::metadata_step(pre.sink, m, post.sink, r)
    }

    open spec fn observation_step(
        pre: DecimationSink<S>,
        o: SignalObservation<F, G>,
        post: DecimationSink<S>,
        r: Result<()>,
    ) -> bool {
        if on_grid(o.t, pre.interval) {
            post.interval == pre.interval && S::observation_step(pre.sink, o, post.sink, r)
        } else {
            post == pre && r == Ok::<(), Error>(())
        }
    }

    open spec fn flush_step(pre: DecimationSink<S>, post: DecimationSink<S>, r: Result<()>) -> bool {
        post.interval == pre.interval && S::flush_step(pre.sink, post.sink, r)
    }

    fn metadata(&mut self, m: &Metadata<F>) -> (r: Result<()>) {
        self.sink.metadata(m)
    }

    fn observation(&mut self, o: &SignalObservation<F, G>) -> (r: Result<()>) {
        if self.on_grid(o.t) {
            self.sink.observation(o)
        } else {
            Ok(())
        }
    }

    fn flush(&mut self) -> (r: Result<()>) {
        self.sink.flush()
    }
}

/// The labels that decimation keeps repeat every day: for an interval that was
/// validated, moving a whole-tick label by a day does not change whether it is
/// kept.
pub proof fn lemma_grid_repeats_daily(t: GpsTime, next: GpsTime, interval_ns: int)
    requires
        interval_ok(interval_ns),
        t.0 >= 0,
        next.0 == t.0 + DAY_NS as int / 100,
        interval_ns / 100 <= i64::MAX,
    ensures
        on_grid(t, (interval_ns / 100) as i64) <==> on_grid(next, (interval_ns / 100) as i64),
{
    let unit = DECIMATION_ROUND_TICKS as int;
    let day = DAY_NS as int / 100;
    let step = interval_ns / 100;
    assert(rounded(next.0 as int, unit) == rounded(t.0 as int, unit) + day);
    lemma_fundamental_div_mod(DAY_NS as int, interval_ns);
    let k = DAY_NS as int / interval_ns;
    assert(day == step * k) by (nonlinear_arith)
        requires
            DAY_NS == interval_ns * k,
            interval_ns == 100 * step,
            day == DAY_NS as int / 100,
    ;
    let x = rounded(t.0 as int, unit);
    lemma_mod_multiples_vanish(k, x, step);
    assert(step * k + x == x + day);
}

/// Forwards only observations that carry a carrier phase (for `--ppp-ar`).
pub struct RequireCpFilter<S> {
    pub sink: S,
}

impl<S> RequireCpFilter<S> {
    pub fn new(sink: S) -> (r: RequireCpFilter<S>)
        ensures
            r == (RequireCpFilter { sink: sink }),
    {
        RequireCpFilter { sink }
    }
}

impl<F, G, S: Sink<F, G>> Sink<F, G> for RequireCpFilter<S> {
    open spec fn metadata_step(
        pre: RequireCpFilter<S>,
        m: MetadataView<F>,
        post: RequireCpFilter<S>,
        r: Result<()>,
    ) -> bool {
        S::metadata_step(pre.sink, m, post.sink, r)
    }

    open spec fn observation_step(
        pre: RequireCpFilter<S>,
        o: SignalObservation<F, G>,
        post: RequireCpFilter<S>,
        r: Result<()>,
    ) -> bool {
        if o.v.cp is None {
            post == pre && r == Ok::<(), Error>(())
        } else {
            S::observation_step(pre.sink, o, post.sink, r)
        }
    }

    open spec fn flush_step(
        pre: RequireCpFilter<S>,
        post: RequireCpFilter<S>,
        r: Result<()>,
    ) -> bool {
        S::flush_step(pre.sink, post.sink, r)
    }

    fn metadata(&mut self, m: &Metadata<F>) -> (r: Result<()>) {
        self.sink.metadata(m)
    }

    fn observation(&mut self, o: &SignalObservation<F, G>) -> (r: Result<()>) {
        if o.v.cp.is_none() {
            return Ok(());
        }
        self.sink.observation(o)
    }

    fn flush(&mut self) -> (r: Result<()>) {
        self.sink.flush()
    }
}

/// A sink behind the filters that were asked for.
pub enum Filtered<S> {
    All(S),
    Decimated(DecimationSink<S>),
    Phase(RequireCpFilter<S>),
    PhaseDecimated(RequireCpFilter<DecimationSink<S>>),
}

/// The filters of an interval in nanoseconds, 0 for none, in front of a sink, and in
/// front of them the one that asks for a carrier phase.
pub open spec fn filters<S>(sink: S, interval_ns: int, require_cp: bool) -> Filtered<S> {
    let decimated = DecimationSink { sink, interval: (interval_ns / 100) as i64 };
    if interval_ns == 0 {
        if require_cp {
            Filtered::Phase(RequireCpFilter { sink })
        } else {
            Filtered::All(sink)
        }
    } else if require_cp {
        Filtered::PhaseDecimated(RequireCpFilter { sink: decimated })
    } else {
        Filtered::Decimated(decimated)
    }
}

/// Puts the filters that were asked for in front of a sink: decimation to an interval
/// in nanoseconds, unless that is 0, and the filter for carrier phase.
pub fn filtered<S>(sink: S, interval_ns: i64, require_cp: bool) -> (r: Result<Filtered<S>>)
    ensures
        interval_ns == 0 || interval_ok(interval_ns as int) ==> (r matches Ok(f) && f == filters(
            sink,
            interval_ns as int,
            require_cp,
        )),
        interval_ns != 0 && interval_ns < 1_000_000_000 ==> (r matches Err(Error::Interval(m))
            && m@ == "decimation interval must be at least 1 second"@),
        interval_ns >= 1_000_000_000 && interval_ns as int % 100 != 0 ==> (r matches Err(
            Error::Interval(m),
        ) && m@ == "decimation interval must be a multiple of 100ns"@),
        interval_ns >= 1_000_000_000 && interval_ns as int % 100 == 0 && !interval_ok(
            interval_ns as int,
        ) ==> (r matches Err(Error::Interval(m)) && m@
            == "decimation interval must divide one GPS day exactly"@),
{
    if interval_ns == 0 {
        return Ok(
            if require_cp {
                Filtered::Phase(RequireCpFilter::new(sink))
            } else {
                Filtered::All(sink)
            },
        );
    }
    let ticks: i64 = match decimation_interval_ticks(interval_ns) {
        Ok(n) => n,
        Err(e) => return Err(e),
    };
    let decimated = DecimationSink::new(sink, ticks);
    Ok(
        if require_cp {
            Filtered::PhaseDecimated(RequireCpFilter::new(decimated))
        } else {
            Filtered::Decimated(decimated)
        },
    )
}

impl<F, G, S: Sink<F, G>> Sink<F, G> for Filtered<S> {
    open spec fn metadata_step(
        pre: Filtered<S>,
        m: MetadataView<F>,
        post: Filtered<S>,
        r: Result<()>,
    ) -> bool {
        match (pre, post) {
            (Filtered::All(a), Filtered::All(b)) => S::metadata_step(a, m, b, r),
            (Filtered::Decimated(a), Filtered::Decimated(b)) => <DecimationSink<S> as Sink<
                F,
                G,
            >>::metadata_step(a, m, b, r),
            (Filtered::Phase(a), Filtered::Phase(b)) => <RequireCpFilter<S> as Sink<
                F,
                G,
            >>::metadata_step(a, m, b, r),
            (Filtered::PhaseDecimated(a), Filtered::PhaseDecimated(b)) => <RequireCpFilter<
                DecimationSink<S>,
            > as Sink<F, G>>::metadata_step(a, m, b, r),
            _ => false,
        }
    }

    open spec fn observation_step(
        pre: Filtered<S>,
        o: SignalObservation<F, G>,
        post: Filtered<S>,
        r: Result<()>,
    ) -> bool {
        match (pre, post) {
            (Filtered::All(a), Filtered::All(b)) => S::observation_step(a, o, b, r),
            (Filtered::Decimated(a), Filtered::Decimated(b)) => <DecimationSink<S> as Sink<
                F,
                G,
            >>::observation_step(a, o, b, r),
            (Filtered::Phase(a), Filtered::Phase(b)) => <RequireCpFilter<S> as Sink<
                F,
                G,
            >>::observation_step(a, o, b, r),
            (Filtered::PhaseDecimated(a), Filtered::PhaseDecimated(b)) => <RequireCpFilter<
                DecimationSink<S>,
            > as Sink<F, G>>::observation_step(a, o, b, r),
            _ => false,
        }
    }

    open spec fn flush_step(pre: Filtered<S>, post: Filtered<S>, r: Result<()>) -> bool {
        match (pre, post) {
            (Filtered::All(a), Filtered::All(b)) => S::flush_step(a, b, r),
            (Filtered::Decimated(a), Filtered::Decimated(b)) => <DecimationSink<S> as Sink<
                F,
                G,
            >>::flush_step(a, b, r),
            (Filtered::Phase(a), Filtered::Phase(b)) => <RequireCpFilter<S> as Sink<
                F,
                G,
            >>::flush_step(a, b, r),
            (Filtered::PhaseDecimated(a), Filtered::PhaseDecimated(b)) => <RequireCpFilter<
                DecimationSink<S>,
            > as Sink<F, G>>::flush_step(a, b, r),
            _ => false,
        }
    }

    fn metadata(&mut self, m: &Metadata<F>) -> (r: Result<()>) {
        match self {
            Filtered::All(s) => s.metadata(m),
            Filtered::Decimated(s) => <DecimationSink<S> as Sink<F, G>>::metadata(s, m),
            Filtered::Phase(s) => <RequireCpFilter<S> as Sink<F, G>>::metadata(s, m),
            Filtered::PhaseDecimated(s) => <RequireCpFilter<DecimationSink<S>> as Sink<
                F,
                G,
            >>::metadata(s, m),
        }
    }

    fn observation(&mut self, o: &SignalObservation<F, G>) -> (r: Result<()>) {
        match self {
            Filtered::All(s) => s.observation(o),
            Filtered::Decimated(s) => s.observation(o),
            Filtered::Phase(s) => s.observation(o),
            Filtered::PhaseDecimated(s) => s.observation(o),
        }
    }

    fn flush(&mut self) -> (r: Result<()>) {
        match self {
            Filtered::All(s) => s.flush(),
            Filtered::Decimated(s) => <DecimationSink<S> as Sink<F, G>>::flush(s),
            Filtered::Phase(s) => <RequireCpFilter<S> as Sink<F, G>>::flush(s),
            Filtered::PhaseDecimated(s) => <RequireCpFilter<DecimationSink<S>> as Sink<
                F,
                G,
            >>::flush(s),
        }
    }
}

/// Collects what it receives: metadata merged into one record, and the
/// observations in order.
pub struct Collector<F, G> {
    pub meta: Metadata<F>,
    pub obs: Vec<SignalObservation<F, G>>,
}

impl<F, G> Collector<F, G> {
    /// A collector that has received nothing.
    pub fn new() -> (r: Collector<F, G>)
        ensures
            r.meta@ == crate::metadata::no_metadata::<F>(),
            r.obs@.len() == 0,
    {
        Collector { meta: Metadata::default(), obs: Vec::new() }
    }
}

impl<F: Copy, G: Copy> Sink<F, G> for Collector<F, G> {
    open spec fn metadata_step(
        pre: Collector<F, G>,
        m: MetadataView<F>,
        post: Collector<F, G>,
        r: Result<()>,
    ) -> bool {
        post.meta@ == pre.meta@.merged(m) && post.obs == pre.obs && r == Ok::<(), Error>(())
    }

    open spec fn observation_step(
        pre: Collector<F, G>,
        o: SignalObservation<F, G>,
        post: Collector<F, G>,
        r: Result<()>,
    ) -> bool {
        post.meta == pre.meta && post.obs@ == pre.obs@.push(o) && r == Ok::<(), Error>(())
    }

    open spec fn flush_step(pre: Collector<F, G>, post: Collector<F, G>, r: Result<()>) -> bool {
        post == pre && r == Ok::<(), Error>(())
    }

    fn metadata(&mut self, m: &Metadata<F>) -> (r: Result<()>) {
        self.meta.merge(m);
        Ok(())
    }

    fn observation(&mut self, o: &SignalObservation<F, G>) -> (r: Result<()>) {
        self.obs.push(*o);
        Ok(())
    }

    fn flush(&mut self) -> (r: Result<()>) {
        Ok(())
    }
}

/// What a collector has received is what it holds.
pub proof fn lemma_collected<F: Copy, G: Copy>(
    pre: Collector<F, G>,
    os: Seq<SignalObservation<F, G>>,
    post: Collector<F, G>,
    r: Result<()>,
)
    requires
        received::<F, G, Collector<F, G>>(pre, os, post, r),
    ensures
        post.meta == pre.meta,
        post.obs@ == pre.obs@ + os,
        r is Ok,
    decreases os.len(),
{
    if os.len() == 0 {
        assert(pre.obs@ + os =~= pre.obs@);
    } else {
        let mid = choose|mid: Collector<F, G>|
            {
                &&& received::<F, G, Collector<F, G>>(pre, os.drop_last(), mid, Ok(()))
                &&& #[trigger] Collector::<F, G>::observation_step(mid, os.last(), post, r)
            };
        lemma_collected(pre, os.drop_last(), mid, Ok(()));
        assert(pre.obs@ + os =~= (pre.obs@ + os.drop_last()).push(os.last()));
    }
}

/// A decimating sink that has received `os` has passed on exactly those on the
/// grid, in order and unchanged.
pub proof fn lemma_decimation_keeps<F, G, S: Sink<F, G>>(
    pre: DecimationSink<S>,
    os: Seq<SignalObservation<F, G>>,
    post: DecimationSink<S>,
    r: Result<()>,
)
    requires
        received::<F, G, DecimationSink<S>>(pre, os, post, r),
    ensures
        received::<F, G, S>(
            pre.sink,
            os.filter(|o: SignalObservation<F, G>| on_grid(o.t, pre.interval)),
            post.sink,
            r,
        ),
        post.interval == pre.interval,
    decreases os.len(),
{
    let keep = |o: SignalObservation<F, G>| on_grid(o.t, pre.interval);
    reveal(Seq::filter);
    if os.len() > 0 {
        let p = os.drop_last();
        let mid = choose|mid: DecimationSink<S>|
            {
                &&& received::<F, G, DecimationSink<S>>(pre, p, mid, Ok(()))
                &&& #[trigger] DecimationSink::<S>::observation_step(mid, os.last(), post, r)
            };
        lemma_decimation_keeps(pre, p, mid, Ok(()));
        if keep(os.last()) {
            lemma_received_push(pre.sink, p.filter(keep), mid.sink, os.last(), post.sink, r);
        }
    }
}

/// A filter for carrier phase that has received `os` has passed on exactly those
/// with a carrier phase, in order and unchanged.
pub proof fn lemma_require_cp_keeps<F, G, S: Sink<F, G>>(
    pre: RequireCpFilter<S>,
    os: Seq<SignalObservation<F, G>>,
    post: RequireCpFilter<S>,
    r: Result<()>,
)
    requires
        received::<F, G, RequireCpFilter<S>>(pre, os, post, r),
    ensures
        received::<F, G, S>(
            pre.sink,
            os.filter(|o: SignalObservation<F, G>| o.v.cp is Some),
            post.sink,
            r,
        ),
    decreases os.len(),
{
    let keep = |o: SignalObservation<F, G>| o.v.cp is Some;
    reveal(Seq::filter);
    if os.len() > 0 {
        let p = os.drop_last();
        let mid = choose|mid: RequireCpFilter<S>|
            {
                &&& received::<F, G, RequireCpFilter<S>>(pre, p, mid, Ok(()))
                &&& #[trigger] RequireCpFilter::<S>::observation_step(mid, os.last(), post, r)
            };
        lemma_require_cp_keeps(pre, p, mid, Ok(()));
        if keep(os.last()) {
            lemma_received_push(pre.sink, p.filter(keep), mid.sink, os.last(), post.sink, r);
        }
    }
}

} // verus!
