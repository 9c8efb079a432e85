//! A small genetic-algorithm engine over fixed-length bit strings.
//!
//! Individuals are vectors of the characters `'0'` and `'1'`; fitness is the
//! number of `'1'` characters. Every random choice is drawn from an explicit
//! random-number generator handed in by the caller.

pub mod bits;
pub mod evolve;
pub mod random;
pub mod recombine;
pub mod select;
