//! Probability distributions over a finite stream of bits: weighted coins,
//! bounded integers, repeat decisions, an alias-method sampler and signed
//! integers biased toward small magnitudes.
pub mod distributions;
pub mod integers;
pub mod sampler;
pub mod source;

pub use distributions::{bounded_int, weighted, Probability, Repeat, RepeatState};
pub use integers::{good_bitlengths, integer_from_bitlengths};
pub use sampler::{Sampler, SamplerEntry};
pub use source::{DataSource, FailedDraw};
