//! One-dimensional Wasserstein (earth-mover) distance between two finite
//! weighted distributions over ordered labels, with a caller-supplied
//! distance between adjacent labels.
//!
//! Weights are non-negative integer masses and the result is an exact
//! rational number, so every stage of the computation is proved.

pub mod model;
pub mod rank;
pub mod cdf;
pub mod merge;
pub mod distance;
pub mod laws;

pub use distance::{wasserstein, Ratio};
