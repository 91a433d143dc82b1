//! A counting collection ("multiset"): it tallies how often each item occurs
//! in a stream, and offers multiset algebra (sum, difference, intersection,
//! union), frequency ranking (most-common and top-k selection) and inclusion
//! tests (subset, superset) over the tallies.
//!
//! Items are `u64` values; counts are signed `i64` values, so a count may be
//! driven below the additive identity by direct writes and the inclusion
//! tests still behave sensibly.
pub mod algebra;
pub mod counter;
pub mod inclusion;
pub mod laws;
pub mod model;
pub mod ranking;

mod identities;

pub use counter::Counter;
