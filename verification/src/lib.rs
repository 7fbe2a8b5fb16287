//! Bounded pretty-printing of hierarchical (JSON-like) documents.
//!
//! The crate renders a document, given as a stream of structural events, as
//! indented text while guaranteeing that the output never exceeds a
//! caller-chosen maximum line count or nesting depth.  Oversized or overly
//! deep substructures are elided behind a single placeholder token rather
//! than being truncated mid-token.
//!
//! The pipeline has three verified stages: a metrics pass over the stream
//! ([`ser::count::count`]), a budget selector that chooses which subtrees to
//! elide ([`ser::exclude::select`]), and a second, elision-aware rendering
//! pass ([`ser::exclude::apply_excludes`] followed by [`ser::print::print`]).
//! Each stage is verified against the state machines in [`model`]; the
//! guarantees of the whole pipeline — identity without limits, exact line
//! counts, the depth bound, monotonicity in the limits, and well-formed
//! output — are proved in [`laws`] and [`fidelity`].
pub mod event;
pub mod fidelity;
pub mod laws;
pub mod logger;
pub mod model;
pub mod ser;
