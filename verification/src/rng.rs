//! The single pseudo-random source that drives the evolutionary operators:
//! rand's `SmallRng`, threaded explicitly through every operator call, with
//! trusted wrappers for the few draws the solver needs. Nothing is promised
//! about the drawn values beyond their range.

use vstd::prelude::*;

verus! {

#[verifier::external_type_specification]
#[verifier::external_body]
pub struct ExSmallRng(rand::rngs::SmallRng);

/// Relies on rand's `SeedableRng::seed_from_u64`: a generator whose stream
/// is a function of the seed, for reproducible runs.
#[verifier::external_body]
pub fn rng_from_seed(seed: u64) -> rand::rngs::SmallRng {
    <rand::rngs::SmallRng as rand::SeedableRng>::seed_from_u64(seed)
}

/// Relies on rand's `SeedableRng::from_os_rng`: a generator seeded from
/// system entropy, the default for ordinary runs.
#[verifier::external_body]
pub fn rng_from_entropy() -> rand::rngs::SmallRng {
    <rand::rngs::SmallRng as rand::SeedableRng>::from_os_rng()
}

/// Relies on rand's `Rng::random_range` over `low..high`: the draw lies in
/// the half-open range; the range must be non-empty or the call panics.
#[verifier::external_body]
pub fn rand_range(rng: &mut rand::rngs::SmallRng, low: usize, high: usize) -> (r: usize)
    requires
        low < high,
    ensures
        low <= r < high,
{
    rand::Rng::random_range(rng, low..high)
}

/// Relies on rand's `Rng::random_ratio`: true with probability
/// `num / den`; a numerator of zero is documented to always give false and
/// a full numerator always true; panics if `den == 0` or `num > den`.
#[verifier::external_body]
pub fn rand_ratio(rng: &mut rand::rngs::SmallRng, num: u32, den: u32) -> (r: bool)
    requires
        0 < den,
        num <= den,
    ensures
        num == 0 ==> r == false,
        num == den ==> r == true,
{
    rand::Rng::random_ratio(rng, num, den)
}

/// Relies on rand's `SliceRandom::shuffle`: the slice is permuted in place,
/// so it holds the same elements with the same multiplicities afterwards.
#[verifier::external_body]
pub fn shuffle(v: &mut Vec<usize>, rng: &mut rand::rngs::SmallRng)
    ensures
        final(v)@.len() == old(v)@.len(),
        final(v)@.to_multiset() == old(v)@.to_multiset(),
{
    rand::seq::SliceRandom::shuffle(v.as_mut_slice(), rng)
}

} // verus!
