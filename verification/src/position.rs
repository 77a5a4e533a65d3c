//! Positioned values and the streams that yield them.

use vstd::prelude::*;

verus! {

/// Names a field of a positioned value, by name or by column index.
#[derive(Debug, PartialEq, Eq)]
pub enum Field {
    String(String),
    Int(usize),
}

/// The content of a field.
#[derive(Debug, PartialEq, Eq)]
pub enum Value {
    Ints(Vec<i64>),
    Strings(Vec<String>),
}

/// The mathematical content of a [`Value`].
pub enum ValueView {
    Ints(Seq<i64>),
    Strings(Seq<Seq<char>>),
}

impl View for Value {
    type V = ValueView;

    open spec fn view(&self) -> ValueView {
        match self {
            Value::Ints(v) => ValueView::Ints(v@),
            Value::Strings(v) => ValueView::Strings(v@.map_values(|s: String| s@)),
        }
    }
}

/// Why a field could not be read.
#[derive(Debug, PartialEq, Eq)]
pub enum FieldError {
    InvalidFieldIndex(usize),
    InvalidFieldName(String),
}

/// A stream failed to deliver its next value.
#[derive(Debug, PartialEq, Eq)]
pub enum StreamError {
    /// The underlying source could not be read.
    Io(String),
    /// A record was read but is not a valid interval.
    InvalidData(String),
}

/// A coordinate as a signed 64-bit field value: the same bit pattern, so
/// coordinates above `i64::MAX` come out negative.
pub open spec fn coordinate_value(c: u64) -> i64 {
    if c <= i64::MAX {
        c as i64
    } else {
        (c - 0x1_0000_0000_0000_0000) as i64
    }
}

/// Computes [`coordinate_value`].
pub fn coordinate_as_value(c: u64) -> (v: i64)
    ensures
        v == coordinate_value(c),
{
    if c <= 0x7fff_ffff_ffff_ffff {
        c as i64
    } else {
        let low: u64 = c - 0x8000_0000_0000_0000;
        (low as i64) + i64::MIN
    }
}

/// A half-open interval `[start, stop)` on a named chromosome, with
/// zero-based coordinates.
pub trait Positioned {
    spec fn chromosome_view(&self) -> Seq<char>;

    spec fn start_view(&self) -> u64;

    spec fn stop_view(&self) -> u64;

    fn chromosome(&self) -> (name: &str)
        ensures
            name@ == self.chromosome_view(),
    ;

    fn start(&self) -> (start: u64)
        ensures
            start == self.start_view(),
    ;

    fn stop(&self) -> (stop: u64)
        ensures
            stop == self.stop_view(),
    ;

    /// Reads a field. Column indexes 0, 1 and 2 are the chromosome, the
    /// start and the stop of every positioned value; what other fields
    /// exist is up to the implementation.
    fn value(&self, field: Field) -> (found: Result<Value, FieldError>)
        ensures
            field matches Field::Int(i) ==> i < 3 ==> found is Ok && found->Ok_0@
                == standard_column(self.chromosome_view(), self.start_view(), self.stop_view(), i),
    ;
}

/// What columns 0, 1 and 2 of an interval hold.
pub open spec fn standard_column(chromosome: Seq<char>, start: u64, stop: u64, index: usize) -> ValueView
    recommends
        index < 3,
{
    if index == 0 {
        ValueView::Strings(seq![chromosome])
    } else if index == 1 {
        ValueView::Ints(seq![coordinate_value(start)])
    } else {
        ValueView::Ints(seq![coordinate_value(stop)])
    }
}

/// Half-open overlap: both intervals lie on the same chromosome, and each
/// starts before the other stops.
pub open spec fn overlaps<A: Positioned, B: Positioned>(a: &A, b: &B) -> bool {
    &&& a.chromosome_view() == b.chromosome_view()
    &&& a.start_view() < b.stop_view()
    &&& a.stop_view() > b.start_view()
}

/// Intervals that abut do not overlap: where one stops the other may
/// start.
pub proof fn lemma_touching_is_no_overlap<A: Positioned, B: Positioned>(a: &A, b: &B)
    requires
        a.stop_view() == b.start_view() || b.stop_view() == a.start_view(),
        a.start_view() <= a.stop_view(),
        b.start_view() <= b.stop_view(),
    ensures
        !overlaps(a, b),
{
}

/// An interval of length zero overlaps nothing, unless it lies strictly
/// inside the other interval.
pub proof fn lemma_empty_is_no_overlap<A: Positioned, B: Positioned>(a: &A, b: &B)
    requires
        a.start_view() == a.stop_view(),
        !(b.start_view() < a.start_view() < b.stop_view()),
    ensures
        !overlaps(a, b),
        !overlaps(b, a),
{
}

/// Overlap does not depend on which interval is named first.
pub proof fn lemma_overlap_symmetric<A: Positioned, B: Positioned>(a: &A, b: &B)
    ensures
        overlaps(a, b) == overlaps(b, a),
{
}

/// A pull-based stream of positioned values, sorted by chromosome rank,
/// then start, then stop. Nothing is taken on trust about a stream: the
/// merge checks what each pull returns.
pub trait PositionedIterator {
    type Item: Positioned;

    /// Pulls the next value. `None` is the clean end of the stream; an
    /// error is terminal for the stream. The hint tells the stream that
    /// nothing before that point will be needed; it may be ignored.
    fn next_position(&mut self, hint: Option<&Self::Item>) -> (pulled: Option<
        Result<Self::Item, StreamError>,
    >);

    /// Identifies the stream in diagnostics.
    fn name(&self) -> (name: String);
}

} // verus!
