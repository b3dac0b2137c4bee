//! Probability tables for a repeated-chance weapon effect.
//!
//! For a weapon whose effect can trigger once per critical hit, the chance
//! that at least one trigger has happened after `t` hits depends on the
//! weapon's refinement rank (which sets the per-crit emission coefficient)
//! and on the attacker's critical-hit rate. This crate builds the fixed
//! 5 x 10 table of per-hit non-occurrence probabilities and evaluates, for a
//! live hit count, the cumulative percentage shown in each cell together
//! with a highlight flag for cells above the 70% threshold.
//!
//! All probabilities are exact rationals with a power-of-ten denominator, so
//! every computation here is exact integer arithmetic, verified end to end.

pub mod digits;
pub mod display;
pub mod eval;
pub mod grid;
pub mod laws;
