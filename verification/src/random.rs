//! The random number generator that draws the digits. What it draws follows
//! from the seed it holds, so that a generator started from a chosen seed
//! repeats itself.

use vstd::prelude::*;
use fastrand::Rng;

verus! {

#[verifier::external_type_specification]
#[verifier::external_body]
pub struct ExRng(Rng);

/// The seed that a generator holds: the whole of its state, from which all
/// that it draws follows.
pub uninterp spec fn seed_of(rng: Rng) -> u64;

/// `fastrand::Rng::new`: a generator seeded from the thread's generator.
/// Nothing is claimed of its seed.
#[verifier::external_body]
pub(crate) fn fresh() -> (rng: Rng) {
    Rng::new()
}

/// `fastrand::Rng::seed`: the generator holds `seed` from now on.
#[verifier::external_body]
pub(crate) fn reseed(rng: &mut Rng, seed: u64)
    ensures
        seed_of(*final(rng)) == seed,
{
    rng.seed(seed)
}

/// The digit that a generator which holds `seed` draws from `lo..hi`, and
/// the seed that it holds afterwards.
pub uninterp spec fn draw_of(seed: u64, lo: u32, hi: u32) -> (u32, u64);

/// The coin that a generator which holds `seed` flips, and the seed that it
/// holds afterwards.
pub uninterp spec fn flip_of(seed: u64) -> (bool, u64);

/// `fastrand::Rng::u32` on the range `lo..hi`, which panics where the range
/// is empty: the digit drawn lies in the range. The digit and the seed that
/// the generator holds afterwards follow from the seed it held and the range
/// alone.
#[verifier::external_body]
pub(crate) fn draw(rng: &mut Rng, lo: u32, hi: u32) -> (digit: u32)
    requires
        lo < hi,
    ensures
        lo <= digit < hi,
        digit == draw_of(seed_of(*old(rng)), lo, hi).0,
        seed_of(*final(rng)) == draw_of(seed_of(*old(rng)), lo, hi).1,
{
    rng.u32(lo..hi)
}

/// `fastrand::Rng::bool`: a coin flip. The coin and the seed that the
/// generator holds afterwards follow from the seed it held alone.
#[verifier::external_body]
pub(crate) fn flip(rng: &mut Rng) -> (heads: bool)
    ensures
        heads == flip_of(seed_of(*old(rng))).0,
        seed_of(*final(rng)) == flip_of(seed_of(*old(rng))).1,
{
    rng.bool()
}

} // verus!
