//! Streaming distinct-count estimation.
//!
//! `find_n_distinct` estimates the number of distinct elements in a finite
//! stream in one pass and in space bounded by a caller-supplied threshold.
//! It keeps a randomly thinned sample of the distinct elements seen so far,
//! halving the sampling probability whenever the sample would outgrow the
//! threshold, and scales the surviving sample size back up by the final
//! probability to obtain the estimate.
//!
//! The result is pinned, in the contracts, to a functional model of the pass
//! over the stream and the values drawn from the random source; the `model`
//! module states and proves the laws the estimator obeys.
pub mod estimator;
pub mod model;
pub mod rng;

pub use estimator::find_n_distinct;
pub use rng::Gen;
