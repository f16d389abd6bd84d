//! Entropy-near-optimal sampling from weighted discrete distributions.
//!
//! A weight vector of nonnegative integers is preprocessed once
//! ([`builder::build`]) into a flat, immutable binary-tree layout (a
//! [`sampler::Sampler`]); a walk over that layout ([`walk::sample_attempt`])
//! then draws one outcome at a time, consuming unbiased random bits one by
//! one from a buffered extractor ([`extractor::FlipState`]) fed by any
//! [`source::BitSource`].

pub mod bitmath;
pub mod model;
pub mod sampler;
pub mod builder;
pub mod source;
pub mod extractor;
pub mod walk;
