//! Layered image synthesis over exact fixed-point numbers.
//!
//! Scalar fields (distance fields, fractal classifiers, sampled noise) are
//! blended into a three-channel accumulation buffer and normalized per
//! channel. Every quantity is a [`fixed::Fixed`]: a signed count of
//! millionths, so that each formula is stated and proved over the integers.
//! A result that leaves the range of such counts stays at the end of the
//! range that it left. A quotient without a denominator is no number, and
//! is given as nothing.

pub mod dist;
pub mod extrema;
pub mod fixed;
pub mod grid;
pub mod pcgbg_buf;
pub mod pcgbg_complex;
pub mod pcgbg_dist;
pub mod pcgbg_noise;
pub mod rng;
