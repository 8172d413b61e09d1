//! Cyclic samplers, the Halton sequence, and sums of sequences.

pub mod distributions;
pub mod sums;
