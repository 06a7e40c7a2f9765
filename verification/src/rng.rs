//! Draws from a pseudo-random generator of the `rand` crate.
//!
//! Nothing in this file is proved: it states what the draws of that crate
//! return, as read from the crate. Of a draw nothing is known but its range.

use rand::Rng;
use vstd::prelude::*;

verus! {

#[verifier::external_type_specification]
#[verifier::external_body]
pub struct ExSmallRng(rand::rngs::SmallRng);

/// `Rng::gen_range` on a half-open range of integers: some integer of the
/// range. The call panics on an empty range, which `requires` leaves out.
#[verifier::external_body]
pub(crate) fn draw_range(rng: &mut rand::rngs::SmallRng, low: i64, high: i64) -> (n: i64)
    requires
        low < high,
    ensures
        low <= n < high,
{
    rng.gen_range(low..high)
}

/// `Rng::gen` for a truth value: either one.
#[verifier::external_body]
pub(crate) fn draw_bool(rng: &mut rand::rngs::SmallRng) -> bool {
    rng.gen()
}

/// `Rng::gen` for a 32-bit seed: any one.
#[verifier::external_body]
pub(crate) fn draw_seed(rng: &mut rand::rngs::SmallRng) -> u32 {
    rng.gen()
}

} // verus!
