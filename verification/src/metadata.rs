//! Header-related facts about a set of observations.

use crate::obs::Instant;
use vstd::prelude::*;

verus! {

/// The program run that made a file.
#[derive(Debug, PartialEq)]
pub struct MetadataRun {
    pub program: String,
    pub by: String,
    pub date: Option<Instant>,
}

/// The contents of a [`MetadataRun`].
#[verifier::ext_equal]
pub struct MetadataRunView {
    pub program: Seq<char>,
    pub by: Seq<char>,
    pub date: Option<Instant>,
}

impl View for MetadataRun {
    type V = MetadataRunView;

    open spec fn view(&self) -> MetadataRunView {
        MetadataRunView { program: self.program@, by: self.by@, date: self.date }
    }
}

impl MetadataRunView {
    pub open spec fn zero(self) -> bool {
        self.program.len() == 0 && self.by.len() == 0 && self.date is None
    }
}

impl MetadataRun {
    pub fn is_zero(&self) -> (r: bool)
        ensures
            r == self@.zero(),
    {
        self.program.as_str().is_empty() && self.by.as_str().is_empty() && self.date.is_none()
    }
}

impl Default for MetadataRun {
    fn default() -> (r: MetadataRun)
        ensures
            r@.zero(),
    {
        MetadataRun { program: String::new(), by: String::new(), date: None }
    }
}

impl Clone for MetadataRun {
    fn clone(&self) -> (r: MetadataRun)
        ensures
            r@ == self@,
    {
        MetadataRun { program: self.program.clone(), by: self.by.clone(), date: self.date }
    }
}

/// The marker at the receiving station.
#[derive(Debug, PartialEq)]
pub struct Marker {
    pub name: String,
    pub number: String,
    pub type_: String,
}

/// The contents of a [`Marker`].
#[verifier::ext_equal]
pub struct MarkerView {
    pub name: Seq<char>,
    pub number: Seq<char>,
    pub type_: Seq<char>,
}

impl View for Marker {
    type V = MarkerView;

    open spec fn view(&self) -> MarkerView {
        MarkerView { name: self.name@, number: self.number@, type_: self.type_@ }
    }
}

impl MarkerView {
    pub open spec fn zero(self) -> bool {
        self.name.len() == 0 && self.number.len() == 0 && self.type_.len() == 0
    }
}

impl Marker {
    pub fn is_zero(&self) -> (r: bool)
        ensures
            r == self@.zero(),
    {
        self.name.as_str().is_empty() && self.number.as_str().is_empty()
            && self.type_.as_str().is_empty()
    }
}

impl Default for Marker {
    fn default() -> (r: Marker)
        ensures
            r@.zero(),
    {
        Marker { name: String::new(), number: String::new(), type_: String::new() }
    }
}

impl Clone for Marker {
    fn clone(&self) -> (r: Marker)
        ensures
            r@ == self@,
    {
        Marker {
            name: self.name.clone(),
            number: self.number.clone(),
            type_: self.type_.clone(),
        }
    }
}

/// The receiver at the station.
#[derive(Debug, PartialEq)]
pub struct Receiver {
    pub number: String,
    pub type_: String,
    pub version: String,
}

/// The contents of a [`Receiver`].
#[verifier::ext_equal]
pub struct ReceiverView {
    pub number: Seq<char>,
    pub type_: Seq<char>,
    pub version: Seq<char>,
}

impl View for Receiver {
    type V = ReceiverView;

    open spec fn view(&self) -> ReceiverView {
        ReceiverView { number: self.number@, type_: self.type_@, version: self.version@ }
    }
}

impl ReceiverView {
    pub open spec fn zero(self) -> bool {
        self.number.len() == 0 && self.type_.len() == 0 && self.version.len() == 0
    }
}

impl Receiver {
    pub fn is_zero(&self) -> (r: bool)
        ensures
            r == self@.zero(),
    {
        self.number.as_str().is_empty() && self.type_.as_str().is_empty()
            && self.version.as_str().is_empty()
    }
}

impl Default for Receiver {
    fn default() -> (r: Receiver)
        ensures
            r@.zero(),
    {
        Receiver { number: String::new(), type_: String::new(), version: String::new() }
    }
}

impl Clone for Receiver {
    fn clone(&self) -> (r: Receiver)
        ensures
            r@ == self@,
    {
        Receiver {
            number: self.number.clone(),
            type_: self.type_.clone(),
            version: self.version.clone(),
        }
    }
}

/// The antenna at the station.
#[derive(Debug, PartialEq)]
pub struct Antenna {
    pub number: String,
    pub type_: String,
}

/// The contents of an [`Antenna`].
#[verifier::ext_equal]
pub struct AntennaView {
    pub number: Seq<char>,
    pub type_: Seq<char>,
}

impl View for Antenna {
    type V = AntennaView;

    open spec fn view(&self) -> AntennaView {
        AntennaView { number: self.number@, type_: self.type_@ }
    }
}

impl AntennaView {
    pub open spec fn zero(self) -> bool {
        self.number.len() == 0 && self.type_.len() == 0
    }
}

impl Antenna {
    pub fn is_zero(&self) -> (r: bool)
        ensures
            r == self@.zero(),
    {
        self.number.as_str().is_empty() && self.type_.as_str().is_empty()
    }
}

impl Default for Antenna {
    fn default() -> (r: Antenna)
        ensures
            r@.zero(),
    {
        Antenna { number: String::new(), type_: String::new() }
    }
}

impl Clone for Antenna {
    fn clone(&self) -> (r: Antenna)
        ensures
            r@ == self@,
    {
        Antenna { number: self.number.clone(), type_: self.type_.clone() }
    }
}

/// Header-related facts; an obsj metadata record.
#[derive(Debug, PartialEq)]
pub struct Metadata<F> {
    pub version: String,
    pub run: MetadataRun,
    pub comment: Vec<String>,
    pub marker: Marker,
    pub observer: String,
    pub agency: String,
    pub receiver: Receiver,
    pub antenna: Antenna,
    pub approx_position: Option<[F; 3]>,
    pub antenna_delta: Option<[F; 3]>,
    pub interval: Option<F>,
    pub leap_seconds: Option<i16>,
}

/// The contents of a [`Metadata`] record.
#[verifier::ext_equal]
pub struct MetadataView<F> {
    pub version: Seq<char>,
    pub run: MetadataRunView,
    pub comment: Seq<Seq<char>>,
    pub marker: MarkerView,
    pub observer: Seq<char>,
    pub agency: Seq<char>,
    pub receiver: ReceiverView,
    pub antenna: AntennaView,
    pub approx_position: Option<[F; 3]>,
    pub antenna_delta: Option<[F; 3]>,
    pub interval: Option<F>,
    pub leap_seconds: Option<i16>,
}

/// The contents of a list of strings.
pub open spec fn texts(v: Seq<String>) -> Seq<Seq<char>> {
    v.map_values(|s: String| s@)
}

impl<F> View for Metadata<F> {
    type V = MetadataView<F>;

    open spec fn view(&self) -> MetadataView<F> {
        MetadataView {
            version: self.version@,
            run: self.run@,
            comment: texts(self.comment@),
            marker: self.marker@,
            observer: self.observer@,
            agency: self.agency@,
            receiver: self.receiver@,
            antenna: self.antenna@,
            approx_position: self.approx_position,
            antenna_delta: self.antenna_delta,
            interval: self.interval,
            leap_seconds: self.leap_seconds,
        }
    }
}

/// A record in which nothing is set.
pub open spec fn no_metadata<F>() -> MetadataView<F> {
    MetadataView {
        version: Seq::empty(),
        run: MetadataRunView { program: Seq::empty(), by: Seq::empty(), date: None },
        comment: Seq::empty(),
        marker: MarkerView { name: Seq::empty(), number: Seq::empty(), type_: Seq::empty() },
        observer: Seq::empty(),
        agency: Seq::empty(),
        receiver: ReceiverView {
            number: Seq::empty(),
            type_: Seq::empty(),
            version: Seq::empty(),
        },
        antenna: AntennaView { number: Seq::empty(), type_: Seq::empty() },
        approx_position: None,
        antenna_delta: None,
        interval: None,
        leap_seconds: None,
    }
}

/// `b` where it is not empty, else `a`.
pub open spec fn text_or(a: Seq<char>, b: Seq<char>) -> Seq<char> {
    if b.len() == 0 {
        a
    } else {
        b
    }
}

/// `b` where it is set, else `a`.
pub open spec fn value_or<T>(a: Option<T>, b: Option<T>) -> Option<T> {
    if b is Some {
        b
    } else {
        a
    }
}

impl<F> MetadataView<F> {
    /// Whether nothing is set.
    pub open spec fn zero(self) -> bool {
        &&& self.version.len() == 0
        &&& self.run.zero()
        &&& self.comment.len() == 0
        &&& self.marker.zero()
        &&& self.observer.len() == 0
        &&& self.agency.len() == 0
        &&& self.receiver.zero()
        &&& self.antenna.zero()
        &&& self.approx_position is None
        &&& self.antenna_delta is None
        &&& self.interval is None
        &&& self.leap_seconds is None
    }

    /// This record with `b` merged into it: what `b` sets takes precedence, its
    /// comments are appended. The run, the receiver and the antenna are taken
    /// over as a whole, the marker field by field.
    pub open spec fn merged(self, b: MetadataView<F>) -> MetadataView<F> {
        MetadataView {
            version: text_or(self.version, b.version),
            run: if b.run.zero() {
                self.run
            } else {
                b.run
            },
            comment: self.comment + b.comment,
            marker: MarkerView {
                name: text_or(self.marker.name, b.marker.name),
                number: text_or(self.marker.number, b.marker.number),
                type_: text_or(self.marker.type_, b.marker.type_),
            },
            observer: text_or(self.observer, b.observer),
            agency: text_or(self.agency, b.agency),
            receiver: if b.receiver.zero() {
                self.receiver
            } else {
                b.receiver
            },
            antenna: if b.antenna.zero() {
                self.antenna
            } else {
                b.antenna
            },
            approx_position: value_or(self.approx_position, b.approx_position),
            antenna_delta: value_or(self.antenna_delta, b.antenna_delta),
            interval: value_or(self.interval, b.interval),
            leap_seconds: value_or(self.leap_seconds, b.leap_seconds),
        }
    }
}

impl<F> Default for Metadata<F> {
    fn default() -> (r: Metadata<F>)
        ensures
            r@ == no_metadata::<F>(),
    {
        let r = Metadata {
            version: String::new(),
            run: MetadataRun::default(),
            comment: Vec::new(),
            marker: Marker::default(),
            observer: String::new(),
            agency: String::new(),
            receiver: Receiver::default(),
            antenna: Antenna::default(),
            approx_position: None,
            antenna_delta: None,
            interval: None,
            leap_seconds: None,
        };
        assert(r@ =~~= no_metadata::<F>());
        r
    }
}

/// Appends copies of the strings of `b`.
pub fn extend_texts(a: &mut Vec<String>, b: &Vec<String>)
    ensures
        texts(final(a)@) == texts(old(a)@) + texts(b@),
{
    let mut i: usize = 0;
    assert(texts(a@) =~= texts(old(a)@) + texts(b@).take(0));
    while i < b.len()
        invariant
            i <= b@.len(),
            texts(a@) == texts(old(a)@) + texts(b@).take(i as int),
        decreases b@.len() - i,
    {
        let ghost before = a@;
        a.push(b[i].clone());
        i += 1;
        assert(texts(a@) =~= texts(before).push(b@[i - 1]@));
        assert(texts(b@).take(i as int) =~= texts(b@).take(i - 1).push(b@[i - 1]@));
        assert(texts(a@) =~= texts(old(a)@) + texts(b@).take(i as int));
    }
    assert(texts(b@).take(i as int) =~= texts(b@));
}

impl<F: Copy> Clone for Metadata<F> {
    fn clone(&self) -> (r: Metadata<F>)
        ensures
            r@ == self@,
    {
        let mut comment: Vec<String> = Vec::new();
        extend_texts(&mut comment, &self.comment);
        let r = Metadata {
            version: self.version.clone(),
            run: self.run.clone(),
            comment,
            marker: self.marker.clone(),
            observer: self.observer.clone(),
            agency: self.agency.clone(),
            receiver: self.receiver.clone(),
            antenna: self.antenna.clone(),
            approx_position: self.approx_position,
            antenna_delta: self.antenna_delta,
            interval: self.interval,
            leap_seconds: self.leap_seconds,
        };
        assert(r@.comment =~= self@.comment);
        r
    }
}

fn take_text(a: &mut String, b: &String)
    ensures
        final(a)@ == text_or(old(a)@, b@),
{
    if !b.as_str().is_empty() {
        *a = b.clone();
    }
}

impl<F> Metadata<F> {
    /// Whether nothing is set.
    pub fn is_zero(&self) -> (r: bool)
        ensures
            r == self@.zero(),
    {
        assert(self@.comment.len() == self.comment@.len());
        self.version.as_str().is_empty() && self.run.is_zero() && self.comment.is_empty()
            && self.marker.is_zero() && self.observer.as_str().is_empty()
            && self.agency.as_str().is_empty() && self.receiver.is_zero() && self.antenna.is_zero()
            && self.approx_position.is_none() && self.antenna_delta.is_none()
            && self.interval.is_none() && self.leap_seconds.is_none()
    }
}

impl<F: Copy> Metadata<F> {
    /// Merges `b` into `self`, with `b` taking precedence where set.
    pub fn merge(&mut self, b: &Metadata<F>)
        ensures
            final(self)@ == old(self)@.merged(b@),
    {
        take_text(&mut self.version, &b.version);
        if !b.run.is_zero() {
            self.run = b.run.clone();
        }
        extend_texts(&mut self.comment, &b.comment);
        take_text(&mut self.marker.name, &b.marker.name);
        take_text(&mut self.marker.number, &b.marker.number);
        take_text(&mut self.marker.type_, &b.marker.type_);
        take_text(&mut self.observer, &b.observer);
        take_text(&mut self.agency, &b.agency);
        if !b.receiver.is_zero() {
            self.receiver = b.receiver.clone();
        }
        if !b.antenna.is_zero() {
            self.antenna = b.antenna.clone();
        }
        if b.approx_position.is_some() {
            self.approx_position = b.approx_position;
        }
        if b.antenna_delta.is_some() {
            self.antenna_delta = b.antenna_delta;
        }
        if b.interval.is_some() {
            self.interval = b.interval;
        }
        if b.leap_seconds.is_some() {
            self.leap_seconds = b.leap_seconds;
        }
    }
}

/// Merging a record in which nothing is set changes nothing, and merging into
/// such a record gives the other one.
pub proof fn lemma_merge_nothing<F>(a: MetadataView<F>)
    ensures
        a.merged(no_metadata::<F>()) == a,
        no_metadata::<F>().merged(a) == a,
{
    assert(a.merged(no_metadata::<F>()) =~~= a);
    assert(no_metadata::<F>().merged(a) =~~= a);
}

/// Merging a series of records may be grouped in any way.
pub proof fn lemma_merge_associative<F>(a: MetadataView<F>, b: MetadataView<F>, c: MetadataView<F>)
    ensures
        a.merged(b).merged(c) == a.merged(b.merged(c)),
{
    assert(a.merged(b).merged(c) =~~= a.merged(b.merged(c)));
}

} // verus!
