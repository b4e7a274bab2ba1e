//! Seeded random draws.

use rand::rngs::StdRng;
use rand::{Rng, SeedableRng};
use vstd::prelude::*;

verus! {

/// The number that a standard generator seeded with `seed` draws first
/// from `0..bound`: what `StdRng::seed_from_u64(seed).gen_range(0..bound)`
/// returns. The generator is deterministic, so this is a function of the
/// two numbers.
pub uninterp spec fn seeded_draw(seed: u64, bound: u64) -> u64;

/// `StdRng::seed_from_u64` followed by `Rng::gen_range` on `0..bound`: the
/// draw named by [`seeded_draw`], which lies below `bound`. An empty range
/// makes `gen_range` panic, which `requires` rules out.
#[verifier::external_body]
pub(crate) fn draw_below(seed: u64, bound: u64) -> (r: u64)
    requires
        bound > 0,
    ensures
        r == seeded_draw(seed, bound),
        r < bound,
{
    let mut rng = StdRng::seed_from_u64(seed);
    rng.gen_range(0..bound)
}

/// `rand::random::<u64>()`: a number from the thread's generator. Nothing
/// is known of it.
#[verifier::external_body]
pub(crate) fn fresh_seed() -> u64 {
    rand::random()
}

/// The seed of draw number `position` of the stream that starts at `seed`.
pub open spec fn stream_seed(seed: u64, position: int) -> u64 {
    seed.wrapping_add(position as u64)
}

} // verus!
