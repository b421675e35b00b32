//! The source of randomness: rand's thread-local generator, behind
//! trusted declarations. Every draw the renderer makes is a raw
//! fixed-point value in `[0, UNIT)`, the analogue of a real drawn
//! uniformly from `[0, 1)`.

use vstd::prelude::*;
use rand::RngExt;
use crate::fixed::UNIT;

verus! {

/// rand's thread-local generator, declared so that it can be carried
/// through the renderer; nothing is assumed of what is inside it.
#[verifier::external_type_specification]
#[verifier::external_body]
pub struct ExThreadRng(rand::rngs::ThreadRng);

/// Relies on rand::rng for a handle to the thread-local generator.
#[verifier::external_body]
pub fn new_rng() -> rand::rngs::ThreadRng {
    rand::rng()
}

/// Relies on rand::RngExt::random_range over `0..65536`: a value
/// uniform in that half-open range; nothing is assumed beyond the
/// range itself.
#[verifier::external_body]
pub fn rand_unit(rng: &mut rand::rngs::ThreadRng) -> (r: i64)
    ensures
        0 <= r < UNIT,
{
    rng.random_range(0..65536)
}

} // verus!
