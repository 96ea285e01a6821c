//! Random sampling for the simulator's arrival process.
//!
//! The generator itself comes from the `rand` crate and is opaque here;
//! nothing is assumed about a draw beyond its documented range, so all
//! logic that consumes a draw is verified for every value it may take.

use vstd::prelude::*;
use rand::RngExt;
use rand::SeedableRng;

verus! {

#[verifier::external_type_specification]
#[verifier::external_body]
pub struct ExStdRng(rand::rngs::StdRng);

/// Relies on rand's `SeedableRng::seed_from_u64` for `StdRng`: a generator
/// built deterministically from a word-sized seed.
#[verifier::external_body]
pub fn rng_from_seed(seed: u64) -> (r: rand::rngs::StdRng) {
    rand::rngs::StdRng::seed_from_u64(seed)
}

/// Relies on rand's `RngExt::random_ratio`: `true` with probability
/// `num / den`, certainly `false` at zero and certainly `true` at one;
/// it panics unless `0 < den` and `num <= den`.
#[verifier::external_body]
pub fn rng_ratio(rng: &mut rand::rngs::StdRng, num: u32, den: u32) -> (r: bool)
    requires
        0 < den,
        num <= den,
    ensures
        num == 0 ==> r == false,
        num == den ==> r == true,
{
    rng.random_ratio(num, den)
}

/// Relies on rand's `RngExt::random_range` over a half-open `u64` range:
/// a value uniformly drawn inside it; it panics on an empty range.
#[verifier::external_body]
pub fn rng_range(rng: &mut rand::rngs::StdRng, lo: u64, hi: u64) -> (r: u64)
    requires
        lo < hi,
    ensures
        lo <= r < hi,
{
    rng.random_range(lo..hi)
}

} // verus!
