//! What reading obsj records gives, key by key and record by record.

use crate::json::{
    is_refused, none_refused, parse_record, passed_on, read_obsj, record_metadata,
    record_observation, records_metadata, records_observations, RawRecord, Record,
};
use crate::metadata::{lemma_merge_associative, lemma_merge_nothing, Metadata};
use crate::obs::SignalObservation;
use crate::sink::Sink;
use vstd::prelude::*;

verus! {

/// Whether a record has the fields of an observation under their own keys, and no
/// legacy key. A flag that is not set and an arc of 0 may be left out.
pub open spec fn holds_observation<F, G>(r: RawRecord<F, G>, o: SignalObservation<F, G>) -> bool {
    &&& r.t == Some(o.t) && r.sat == Some(o.sat) && r.sig == Some(o.sig)
    &&& r.frq == o.v.frq
    &&& r.pr == o.v.pr && r.cp == o.v.cp && r.dop == o.v.dop && r.cn0 == o.v.cn0
    &&& r.arc == Some(o.v.arc) || (r.arc is None && o.v.arc == 0)
    &&& r.hc == Some(o.v.hc) || (r.hc is None && !o.v.hc)
    &&& r.bt == Some(o.v.bt) || (r.bt is None && !o.v.bt)
    &&& !r.ssi && !r.lli && !r.ll
}

/// A record that holds an observation without a loss-of-lock flag is parsed to that
/// observation.
pub proof fn lemma_record_reads_back<F, G>(
    r: RawRecord<F, G>,
    o: SignalObservation<F, G>,
    out: Result<Record<F, G>, String>,
)
    requires
        holds_observation(r, o),
        !o.v.ll,
        call_ensures(parse_record::<F, G>, (r,), out),
    ensures
        out == Ok::<Record<F, G>, String>(Record::Observation(o)),
{
}

/// An observation that was parsed has every value from its own key, and a record with
/// a legacy key, or without a satellite or a signal, is refused.
pub proof fn lemma_observation_keys<F, G>(r: RawRecord<F, G>, out: Result<Record<F, G>, String>)
    requires
        r.t is Some,
        call_ensures(parse_record::<F, G>, (r,), out),
    ensures
        out is Err <==> r.ssi || r.lli || r.ll || r.sat is None || r.sig is None,
        out is Ok ==> (out matches Ok(Record::Observation(o)) && holds_observation(r, o)
            && !o.v.ll),
{
}

/// Whether a text is the one under a key, and empty where the key is not there.
pub open spec fn is_text(key: Option<String>, s: Seq<char>) -> bool {
    match key {
        Some(x) => s == x@,
        None => s.len() == 0,
    }
}

/// Whether a record has the facts of metadata under their own keys.
pub open spec fn holds_metadata<F, G>(r: RawRecord<F, G>, m: Metadata<F>) -> bool {
    &&& is_text(r.version, m.version@)
    &&& is_text(r.observer, m.observer@)
    &&& is_text(r.agency, m.agency@)
    &&& match r.run {
        Some(x) => m.run.program@ == x.program@ && m.run.by@ == x.by@ && m.run.date == x.date,
        None => m.run.program@.len() == 0 && m.run.by@.len() == 0 && m.run.date is None,
    }
    &&& match r.comment {
        Some(x) => m.comment@.len() == x@.len() && forall|i: int|
            0 <= i < x@.len() ==> (#[trigger] m.comment@[i])@ == x@[i]@,
        None => m.comment@.len() == 0,
    }
    &&& match r.marker {
        Some(x) => m.marker.name@ == x.name@ && m.marker.number@ == x.number@ && m.marker.type_@
            == x.type_@,
        None => m.marker.name@.len() == 0 && m.marker.number@.len() == 0 && m.marker.type_@.len()
            == 0,
    }
    &&& match r.receiver {
        Some(x) => m.receiver.number@ == x.number@ && m.receiver.type_@ == x.type_@
            && m.receiver.version@ == x.version@,
        None => m.receiver.number@.len() == 0 && m.receiver.type_@.len() == 0
            && m.receiver.version@.len() == 0,
    }
    &&& match r.antenna {
        Some(x) => m.antenna.number@ == x.number@ && m.antenna.type_@ == x.type_@,
        None => m.antenna.number@.len() == 0 && m.antenna.type_@.len() == 0,
    }
    &&& m.approx_position == r.approx_position
    &&& m.antenna_delta == r.antenna_delta
    &&& m.interval == r.interval
    &&& m.leap_seconds == r.leap_seconds
}

/// A record without a time is metadata, with every fact from its own key.
pub proof fn lemma_metadata_keys<F, G>(r: RawRecord<F, G>, out: Result<Record<F, G>, String>)
    requires
        r.t is None,
        call_ensures(parse_record::<F, G>, (r,), out),
    ensures
        out matches Ok(Record::Metadata(m)) && holds_metadata(r, m),
{
    let m = out->Ok_0->Metadata_0;
    assert(m@.comment.len() == m.comment@.len());
    assert forall|i: int| 0 <= i < m.comment@.len() implies m@.comment[i] == (
    #[trigger] m.comment@[i])@ by {}
    if r.comment is Some {
        let x = r.comment->0;
        assert(crate::metadata::texts(x@).len() == x@.len());
        assert forall|i: int| 0 <= i < x@.len() implies (#[trigger] m.comment@[i])@ == x@[i]@ by {
            assert(m@.comment[i] == crate::metadata::texts(x@)[i]);
        }
    }
}

/// An observation in a stream reaches the sink as it is, and the sink's answer comes
/// back.
pub proof fn lemma_observation_passed_on<F, G, S: Sink<F, G>>(
    pre: S,
    r: RawRecord<F, G>,
    o: SignalObservation<F, G>,
    line: nat,
    post: S,
    out: Result<(), String>,
)
    requires
        holds_observation(r, o),
        !o.v.ll,
        passed_on(pre, r, line, post, out),
    ensures
        exists|res: crate::error::Result<()>| #[trigger]
            S::observation_step(pre, o, post, res) && (out is Ok <==> res is Ok),
{
    assert(record_observation(r) == o);
}

// ---- many records ----

/// Whether records hold observations, one each.
pub open spec fn hold_observations<F, G>(
    rs: Seq<(u64, RawRecord<F, G>)>,
    os: Seq<SignalObservation<F, G>>,
) -> bool {
    &&& rs.len() == os.len()
    &&& forall|i: int|
        0 <= i < rs.len() ==> holds_observation((#[trigger] rs[i]).1, os[i]) && !os[i].v.ll
}

proof fn lemma_observations<F, G>(
    rs: Seq<(u64, RawRecord<F, G>)>,
    os: Seq<SignalObservation<F, G>>,
)
    requires
        hold_observations(rs, os),
    ensures
        records_observations(rs) == os,
        records_metadata(rs) == crate::metadata::no_metadata::<F>(),
    decreases rs.len(),
{
    if rs.len() > 0 {
        let n = rs.len() - 1;
        assert(holds_observation(rs[n].1, os[n]));
        assert(hold_observations(rs.drop_last(), os.drop_last())) by {
            assert forall|i: int| 0 <= i < n implies holds_observation(
                (#[trigger] rs.drop_last()[i]).1,
                os.drop_last()[i],
            ) && !os.drop_last()[i].v.ll by {
                assert(rs.drop_last()[i] == rs[i]);
                assert(os.drop_last()[i] == os[i]);
            }
        }
        lemma_observations(rs.drop_last(), os.drop_last());
        assert(record_observation(rs.last().1) == os.last());
        assert(os =~= os.drop_last().push(os.last()));
    } else {
        assert(os =~= Seq::empty());
    }
}

/// Records that hold observations are read as those, all of them and in their order.
pub proof fn lemma_stream_reads_back<F: Copy, G: Copy>(
    rs: Vec<(u64, RawRecord<F, G>)>,
    os: Seq<SignalObservation<F, G>>,
    out: Result<(Metadata<F>, Vec<SignalObservation<F, G>>), String>,
)
    requires
        hold_observations(rs@, os),
        call_ensures(read_obsj::<F, G>, (rs,), out),
    ensures
        out matches Ok((m, v)) && v@ == os,
{
    assert(none_refused(rs@)) by {
        assert forall|i: int| 0 <= i < rs@.len() implies !is_refused((#[trigger] rs@[i]).1) by {
            assert(holds_observation(rs@[i].1, os[i]));
        }
    }
    lemma_observations(rs@, os);
}

proof fn lemma_joined<F, G>(a: Seq<(u64, RawRecord<F, G>)>, b: Seq<(u64, RawRecord<F, G>)>)
    ensures
        records_observations(a + b) == records_observations(a) + records_observations(b),
        records_metadata(a + b) == records_metadata(a).merged(records_metadata(b)),
    decreases b.len(),
{
    if b.len() == 0 {
        assert(a + b =~= a);
        assert(records_observations(a) + records_observations(b) =~= records_observations(a));
        lemma_merge_nothing(records_metadata(a));
    } else {
        let p = b.drop_last();
        lemma_joined(a, p);
        assert((a + b).drop_last() =~= a + p);
        assert((a + b).last() == b.last());
        if b.last().1.t is Some {
            assert(records_observations(a + b) =~= records_observations(a) + records_observations(
                b,
            ));
        } else {
            lemma_merge_associative(
                records_metadata(a),
                records_metadata(p),
                record_metadata(b.last().1),
            );
        }
    }
}

/// A stream may be read in two parts: the observations follow each other, and the
/// metadata of the second part is merged into that of the first.
pub proof fn lemma_streams_join<F: Copy, G: Copy>(
    a: Vec<(u64, RawRecord<F, G>)>,
    b: Vec<(u64, RawRecord<F, G>)>,
    both: Vec<(u64, RawRecord<F, G>)>,
    x: Result<(Metadata<F>, Vec<SignalObservation<F, G>>), String>,
    y: Result<(Metadata<F>, Vec<SignalObservation<F, G>>), String>,
    z: Result<(Metadata<F>, Vec<SignalObservation<F, G>>), String>,
)
    requires
        both@ == a@ + b@,
        call_ensures(read_obsj::<F, G>, (a,), x),
        call_ensures(read_obsj::<F, G>, (b,), y),
        call_ensures(read_obsj::<F, G>, (both,), z),
    ensures
        z is Ok <==> x is Ok && y is Ok,
        z is Ok ==> z->Ok_0.1@ == x->Ok_0.1@ + y->Ok_0.1@,
        z is Ok ==> z->Ok_0.0@ == x->Ok_0.0@.merged(y->Ok_0.0@),
{
    lemma_joined(a@, b@);
    if none_refused(both@) {
        assert forall|i: int| 0 <= i < a@.len() implies !is_refused((#[trigger] a@[i]).1) by {
            assert(both@[i] == a@[i]);
        }
        assert forall|i: int| 0 <= i < b@.len() implies !is_refused((#[trigger] b@[i]).1) by {
            assert(both@[a@.len() + i] == b@[i]);
        }
    }
    if none_refused(a@) && none_refused(b@) {
        assert forall|i: int| 0 <= i < both@.len() implies !is_refused((#[trigger] both@[i]).1) by {
            if i < a@.len() {
                assert(both@[i] == a@[i]);
            } else {
                assert(both@[i] == b@[i - a@.len()]);
            }
        }
    }
}

/// A stream of one record without a time is read as the metadata of that record.
pub proof fn lemma_single_metadata<F: Copy, G: Copy>(
    rs: Vec<(u64, RawRecord<F, G>)>,
    out: Result<(Metadata<F>, Vec<SignalObservation<F, G>>), String>,
)
    requires
        rs@.len() == 1,
        rs@[0].1.t is None,
        call_ensures(read_obsj::<F, G>, (rs,), out),
    ensures
        out matches Ok((m, v)) && v@.len() == 0 && holds_metadata(rs@[0].1, m),
{
    let r = rs@[0].1;
    assert(none_refused(rs@));
    assert(rs@.drop_last() =~= Seq::empty());
    assert(records_metadata(rs@.drop_last()) == crate::metadata::no_metadata::<F>());
    assert(records_observations(rs@.drop_last()) == Seq::<SignalObservation<F, G>>::empty());
    lemma_merge_nothing(record_metadata(r));
    let m = out->Ok_0.0;
    assert(m@ == record_metadata(r));
    assert(m@.comment.len() == m.comment@.len());
    assert forall|i: int| 0 <= i < m.comment@.len() implies m@.comment[i] == (
    #[trigger] m.comment@[i])@ by {}
    if r.comment is Some {
        let x = r.comment->0;
        assert(crate::metadata::texts(x@).len() == x@.len());
        assert forall|i: int| 0 <= i < x@.len() implies (#[trigger] m.comment@[i])@ == x@[i]@ by {
            assert(m@.comment[i] == crate::metadata::texts(x@)[i]);
        }
    }
}

// ---- merging ----

/// Whether a text is the newer of two, or the older where the newer is empty.
pub open spec fn newer_text(old: Seq<char>, new: Seq<char>, r: Seq<char>) -> bool {
    (new.len() > 0 ==> r == new) && (new.len() == 0 ==> r == old)
}

/// Whether a value is the newer of two, or the older where there is no newer.
pub open spec fn newer_value<T>(old: Option<T>, new: Option<T>, r: Option<T>) -> bool {
    (new is Some ==> r == new) && (new is None ==> r == old)
}

/// Merging metadata takes every fact that the newer record sets, keeps the others, and
/// appends the comments. A run, a receiver and an antenna are taken whole.
pub proof fn lemma_merge_takes_the_newer<F: Copy>(b: &Metadata<F>)
    ensures
        forall|a: &mut Metadata<F>| #[trigger]
            call_ensures(Metadata::<F>::merge, (a, b), ()) ==> {
                &&& newer_text((*a).version@, b.version@, final(a).version@)
                &&& newer_text((*a).observer@, b.observer@, final(a).observer@)
                &&& newer_text((*a).agency@, b.agency@, final(a).agency@)
                &&& newer_text((*a).marker.name@, b.marker.name@, final(a).marker.name@)
                &&& newer_text((*a).marker.number@, b.marker.number@, final(a).marker.number@)
                &&& newer_text((*a).marker.type_@, b.marker.type_@, final(a).marker.type_@)
                &&& newer_value((*a).approx_position, b.approx_position, final(a).approx_position)
                &&& newer_value((*a).antenna_delta, b.antenna_delta, final(a).antenna_delta)
                &&& newer_value((*a).interval, b.interval, final(a).interval)
                &&& newer_value((*a).leap_seconds, b.leap_seconds, final(a).leap_seconds)
            },
        forall|a: &mut Metadata<F>| #[trigger]
            call_ensures(Metadata::<F>::merge, (a, b), ()) ==> {
                let run = b.run.program@.len() > 0 || b.run.by@.len() > 0 || b.run.date is Some;
                let from = if run {
                    b.run
                } else {
                    (*a).run
                };
                &&& final(a).run.program@ == from.program@
                &&& final(a).run.by@ == from.by@
                &&& final(a).run.date == from.date
            },
        forall|a: &mut Metadata<F>| #[trigger]
            call_ensures(Metadata::<F>::merge, (a, b), ()) ==> {
                let known = b.receiver.number@.len() > 0 || b.receiver.type_@.len() > 0
                    || b.receiver.version@.len() > 0;
                let from = if known {
                    b.receiver
                } else {
                    (*a).receiver
                };
                &&& final(a).receiver.number@ == from.number@
                &&& final(a).receiver.type_@ == from.type_@
                &&& final(a).receiver.version@ == from.version@
            },
        forall|a: &mut Metadata<F>| #[trigger]
            call_ensures(Metadata::<F>::merge, (a, b), ()) ==> {
                let known = b.antenna.number@.len() > 0 || b.antenna.type_@.len() > 0;
                let from = if known {
                    b.antenna
                } else {
                    (*a).antenna
                };
                &&& final(a).antenna.number@ == from.number@
                &&& final(a).antenna.type_@ == from.type_@
            },
{
}

/// Merging metadata appends the comments of the newer record.
pub proof fn lemma_merge_appends_comments<F: Copy>(b: &Metadata<F>, i: int)
    ensures
        forall|a: &mut Metadata<F>| #[trigger]
            call_ensures(Metadata::<F>::merge, (a, b), ()) ==> {
                let n = (*a).comment@.len();
                &&& final(a).comment@.len() == n + b.comment@.len()
                &&& 0 <= i < n ==> final(a).comment@[i]@ == (*a).comment@[i]@
                &&& 0 <= i < b.comment@.len() ==> final(a).comment@[n + i]@ == b.comment@[i]@
            },
{
    assert forall|a: &mut Metadata<F>| #[trigger]
        call_ensures(Metadata::<F>::merge, (a, b), ()) implies ({
        let n = (*a).comment@.len();
        &&& final(a).comment@.len() == n + b.comment@.len()
        &&& 0 <= i < n ==> final(a).comment@[i]@ == (*a).comment@[i]@
        &&& 0 <= i < b.comment@.len() ==> final(a).comment@[n + i]@ == b.comment@[i]@
    }) by {
        let x = (*a)@.comment;
        let y = b@.comment;
        let z = final(a)@.comment;
        assert(z == x + y);
        assert(x.len() == (*a).comment@.len() && y.len() == b.comment@.len());
        assert(z.len() == final(a).comment@.len());
        if 0 <= i < x.len() {
            assert(z[i] == x[i]);
        }
        if 0 <= i < y.len() {
            assert(z[x.len() + i] == y[i]);
        }
    }
}

} // verus!
