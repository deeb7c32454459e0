//! Monte Carlo estimation of π with a bit-exact, reproducible sampler.
//!
//! The generator is xorshift64. Every value it hands out stands for the
//! double-precision number `state / 2^64`, and every decision taken on such
//! values is computed in integer arithmetic that agrees with IEEE 754
//! round-to-nearest-even, so a run is a function of its seed and length alone.

pub mod rounding;
pub mod sample;
pub mod sampler;
pub mod xorshift;
