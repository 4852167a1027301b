//! Independent biased-coin bits drawn from a uniform 64-bit source.
//!
//! The sampler narrows a half-open interval `[low, high)` of the unit
//! interval with fresh uniform bits and emits a bit whenever the interval
//! lies wholly on one side of the success probability `p`. The interval is
//! then stretched back to the unit interval, so entropy left over from one
//! bit carries over to the next one, and from one word to the next one.
//!
//! All arithmetic is on integers: the unit interval is scaled to
//! `[0, ONE]` with `ONE = 2^62`.

mod error;
mod probability;
mod sampler;
mod generator;
mod source;

pub use error::Error;
pub use generator::BernoulliRng;
pub use probability::{
    exponent_field, fixed_of_bits, in_unit_interval, probability_from_bits, scale_exponent,
    significand, MANTISSA_RANGE, ONE, ONE_BITS,
};
pub use sampler::{
    after_read, buffered_bit, halve, lemma_replay, reads_all, refilled, run, stretch_failure,
    stretch_success,
    Sampler,
};
pub use source::UniformSource;
