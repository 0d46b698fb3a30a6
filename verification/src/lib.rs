//! A type-indexed store: a map that holds at most one value per static type,
//! keyed by the type's identity rather than by a caller-supplied key.
//!
//! The store itself ([`TypeMap`]) is verified: its contracts describe the
//! entry set as a mathematical map from type identifiers to erased holders,
//! and the proof functions in [`laws`] state how the operations relate. Only
//! the small primitives in [`erased`] — obtaining a type's identifier and
//! moving a value in and out of a type-erased holder — are taken on trust.

pub mod erased;
pub mod laws;
pub mod store;

pub use store::TypeMap;
