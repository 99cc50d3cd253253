//! A zero-allocation JSON validator and in-place query engine over byte slices.
//!
//! `validate` answers whether a buffer is one complete, strict ECMA-404
//! document, and distinguishes its four kinds of "no". `search` finds a value
//! by a dotted, bracketed path and hands back a sub-slice of the caller's own
//! buffer; `iterate` and `pairs` walk the elements of a collection. No entry
//! point allocates, recurses or panics, on any input.
pub mod chars;
pub mod scan;
pub mod validate;
pub mod search;
pub mod window;
pub mod grammar;
pub mod laws;

pub use search::{iterate, pairs, search, Kind, Match, NotFound, Pair, Pairs, Stopped};
pub use validate::{is_valid, validate, Validity, MAX_DEPTH};
