//! A replicated ordered-sequence engine.
//!
//! Independent replicas insert and delete elements of a shared sequence
//! without central coordination.  Each element sits under an identifier
//! ([`Key`]): an ordered path of `(index, origin)` segments that denotes a
//! position in an unbounded virtual dense order.  A [`Document`] maps
//! identifiers to values, generates fresh identifiers strictly between two
//! existing ones for local edits, and replays identifiers produced elsewhere
//! verbatim, so that every replica converges to the same total order no
//! matter in which order the operations arrive.

pub mod key;
pub mod document;

pub use key::{Id, InsertionStrategy, Key};
pub use document::Document;
