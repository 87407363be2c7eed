//! Derangements: permutations of `0..n` in which no element maps to itself.
pub mod derange;
pub mod notation;
