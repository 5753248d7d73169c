//! An ordered multiset ("sorted bag"): elements of an orderable type are kept
//! together with their multiplicities, supporting insertion, removal of one or
//! of all occurrences, counting, membership tests, ordered traversal, and
//! range queries.
//!
//! The central type is [`TreeMultiSet`].  Its specification is stated over a
//! flat mathematical view: the ascending sequence of all stored elements,
//! with each element repeated as many times as it occurs.

pub mod model;
pub mod tree;

pub use tree::Bound;
pub use tree::TreeMultiSet;
