//! The random source behind obstacle seeding and player placement.
//!
//! Everything in this file is trusted: Verus accepts the contracts below
//! without looking at the `rand` crate.

use rand::Rng;
use vstd::prelude::*;

verus! {

/// `rand::rngs::ThreadRng`, the handle to the generator of the current
/// thread. It is carried around as an opaque value.
#[verifier::external_type_specification]
#[verifier::external_body]
pub struct ExThreadRng(rand::rngs::ThreadRng);

/// `rand::rng()`: a handle to the generator of the current thread. Nothing is
/// claimed about the handle. (`rand` gives up with a panic if the operating
/// system cannot seed the generator.)
pub assume_specification[ rand::rng ]() -> (generator: rand::rngs::ThreadRng);

/// `Rng::random_range(0..bound)` on the thread's generator: a uniformly drawn
/// index. The only claim is the one `rand` documents for every outcome, that
/// the value lies inside the half-open range; `rand` panics on an empty range,
/// which the precondition rules out.
#[verifier::external_body]
pub(crate) fn roll_below(generator: &mut rand::rngs::ThreadRng, bound: usize) -> (roll: usize)
    requires
        bound > 0,
    ensures
        roll < bound,
{
    generator.random_range(0..bound)
}

} // verus!
