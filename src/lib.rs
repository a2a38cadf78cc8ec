//! Ids of a commit graph and sets of them held as sorted spans.
//!
//! Vertices get dense, topologically sorted integer [`Id`]s, split into
//! [`Group`]s. Sets of ids, mostly long runs of consecutive integers, are
//! [`SpanSet`]s: sorted lists of disjoint, non-adjacent inclusive ranges
//! ([`Span`]), with union, intersection, difference, containment and
//! iteration from both ends. [`SpanSetAsc`] is the same set, cheap to grow
//! in ascending order. [`VertexName`] is the byte-string name of a vertex.

pub mod asc;
pub mod id;
pub mod iter;
pub mod laws;
pub mod show;
pub mod span;
pub mod spanset;
pub mod text;
pub mod vertex;

pub use asc::SpanSetAsc;
pub use id::{Group, Id, IdIter};
pub use iter::{SpanSetIntoIter, SpanSetIter};
pub use span::{EndBound, Span};
pub use spanset::SpanSet;
pub use vertex::{InvalidHex, VertexName};
