//! Minimum-gate synthesis of Boolean functions.
//!
//! The crate computes, for Boolean functions of `N` variables represented by
//! their truth tables, the minimum number of binary gates needed to derive
//! them from a set of input functions (an exact breadth-first search and an
//! upper-bound variant that tracks dependency footprints), and greedily grows
//! a straight-line program (a chain) until a set of target functions is
//! realized.

pub mod algorithm_l;
pub mod algorithm_l_extended;
pub mod bit_set;
pub mod bit_set_fast;
pub mod builder;
pub mod chain;
pub mod counting;
pub mod expression;
pub mod function;
pub mod text;
