//! A library for seating people at tables so that the total pairwise
//! affinity score of the arrangement is as low as possible.
//!
//! The pieces, from the bottom up:
//! - [`ids`]: a registry handing out compact integer identifiers for
//!   names, and a symmetric table of pairwise affinity scores.
//! - [`tables`]: the fixed partition of seat indices into contiguous
//!   per-table ranges, and the mutable assignment of people to seats.
//! - [`cost`]: the evaluator summing pairwise scores over tablemates.
//! - [`search`]: the randomized swap/accept/revert local search.
//! - [`parse`]: small decimal parsers for the textual inputs.

pub mod cost;
pub mod ids;
pub mod parse;
pub mod search;
pub mod tables;

pub use ids::Id;
