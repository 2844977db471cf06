//! Core of a single-page todo list: an ordered collection of entries, a view
//! filter, a state aggregate with its mutating operations, and a persistence
//! codec for the entry collection.
//!
//! Index arguments of the mutating operations are positions within the
//! currently *filtered* view of the entries, not absolute positions; every
//! index-taking operation first resolves such a position to an absolute one.

pub mod codec;
pub mod entry;
pub mod filter;
pub mod message;
pub mod state;
pub mod text;
