//! Factoring a composite by rebuilding its two factors bit by bit.
//!
//! The factors are grown from the least significant bit upwards; a depth-first
//! search with backtracking decides, level by level, which of the two factors
//! gets the next bit.

pub mod bits;
pub mod tree;
pub mod search;
pub mod seeds;
pub mod parallel;
pub mod laws;
