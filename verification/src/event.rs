//! The document event vocabulary and the rendered-line type.
//!
//! A document is presented to the library as an ordered stream of structural
//! events.  Scalars and object keys carry their already-serialized token text;
//! the library never inspects the token, it only counts and places it.
use vstd::prelude::*;

verus! {

/// Whether a composite value is an array or an object.
#[derive(Clone, Copy, Debug, PartialEq, Eq, Structural)]
pub enum Kind {
    Arr,
    Obj,
}

/// One structural event of a document stream.
#[derive(Debug)]
pub enum Event {
    BeginArray,
    EndArray,
    BeginObject,
    EndObject,
    /// An object member key, as its serialized token (quotes included).
    Key(String),
    /// A scalar value, as its serialized token.
    Scalar(String),
}

/// The mathematical value of an [`Event`]: token text becomes a `Seq<char>`.
pub enum EvV {
    BeginArray,
    EndArray,
    BeginObject,
    EndObject,
    Key(Seq<char>),
    Scalar(Seq<char>),
}

impl View for Event {
    type V = EvV;

    open spec fn view(&self) -> EvV {
        match self {
            Event::BeginArray => EvV::BeginArray,
            Event::EndArray => EvV::EndArray,
            Event::BeginObject => EvV::BeginObject,
            Event::EndObject => EvV::EndObject,
            Event::Key(s) => EvV::Key(s@),
            Event::Scalar(s) => EvV::Scalar(s@),
        }
    }
}

/// An event of the second, elision-aware pass: either a forwarded input
/// event or the placeholder standing for an elided subtree.
#[derive(Debug)]
pub enum OutEvent {
    Ev(Event),
    Placeholder,
}

/// The mathematical value of an [`OutEvent`].
pub enum OutEvV {
    Ev(EvV),
    Placeholder,
}

impl View for OutEvent {
    type V = OutEvV;

    open spec fn view(&self) -> OutEvV {
        match self {
            OutEvent::Ev(e) => OutEvV::Ev(e@),
            OutEvent::Placeholder => OutEvV::Placeholder,
        }
    }
}

/// One line of rendered output: an indentation level (in steps, not spaces)
/// and the text of the line after the indentation.
#[derive(Debug)]
pub struct Line {
    pub indent: usize,
    pub text: String,
}

/// The mathematical value of a [`Line`].
pub struct LineV {
    pub indent: int,
    pub text: Seq<char>,
}

impl View for Line {
    type V = LineV;

    open spec fn view(&self) -> LineV {
        LineV { indent: self.indent as int, text: self.text@ }
    }
}

/// How a render can fail.
#[derive(Clone, Copy, Debug, PartialEq, Eq, Structural)]
pub enum Error {
    /// The event stream had unbalanced or ill-placed structural events.
    MalformedStream,
    /// The exclusion boundaries did not line up with the replayed stream.
    InternalInconsistency,
}

/// The values of a sequence of events.
pub open spec fn views(s: Seq<Event>) -> Seq<EvV> {
    s.map_values(|e: Event| e@)
}

/// The values of a sequence of pass-two events.
pub open spec fn out_views(s: Seq<OutEvent>) -> Seq<OutEvV> {
    s.map_values(|e: OutEvent| e@)
}

/// The values of a sequence of rendered lines.
pub open spec fn line_views(s: Seq<Line>) -> Seq<LineV> {
    s.map_values(|l: Line| l@)
}

/// Rebuilds an event; the copy has the same value as the original.
pub fn dup_event(e: &Event) -> (r: Event)
    ensures
        r@ == e@,
{
    match e {
        Event::BeginArray => Event::BeginArray,
        Event::EndArray => Event::EndArray,
        Event::BeginObject => Event::BeginObject,
        Event::EndObject => Event::EndObject,
        Event::Key(s) => Event::Key(s.clone()),
        Event::Scalar(s) => Event::Scalar(s.clone()),
    }
}

} // verus!
