//! Coherent-noise planes: their random configuration, and the points at
//! which the noise function is read.
//!
//! The noise function itself works on floating-point numbers and is kept
//! outside this library: a plane is its seed and its scale.

use crate::fixed::{product_raw, Fixed};
use crate::rng::draw_seed;
use rand::rngs::SmallRng;
use vstd::prelude::*;

verus! {

/// A noise plane: the seed of the noise function, and the factor by which
/// both coordinates are multiplied before the function is read.
#[derive(Clone, Copy, Debug, PartialEq, Eq, Structural)]
pub struct Noise {
    pub seed: u32,
    pub scale: Fixed,
}

/// A random choice of noise planes of one scale.
pub struct NoiseDistribution {
    pub scale: Fixed,
}

impl NoiseDistribution {
    /// Draws a plane: a fresh seed, with the scale of the distribution.
    pub fn sample(&self, rng: &mut SmallRng) -> (noise: Noise)
        ensures
            noise.scale == self.scale,
    {
        Noise { seed: draw_seed(rng), scale: self.scale }
    }
}

impl Noise {
    /// The point at which the noise function is read for the point `(x, y)`
    /// of the plane: both coordinates, multiplied by the scale.
    pub fn scaled_point(&self, x: Fixed, y: Fixed) -> (p: (Fixed, Fixed))
        ensures
            p.0.raw == product_raw(x.raw as int, self.scale.raw as int),
            p.1.raw == product_raw(y.raw as int, self.scale.raw as int),
    {
        (x.times(self.scale), y.times(self.scale))
    }
}

} // verus!
