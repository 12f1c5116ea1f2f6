//! The random choices the library makes, through the `rand` crate.
use rand::distributions::{Distribution, Uniform};
use rand::rngs::SmallRng;
use rand::seq::SliceRandom;
use rand::SeedableRng;
use vstd::prelude::*;

verus! {

/// `rand`'s small, fast random number generator.
#[verifier::external_type_specification]
#[verifier::external_body]
pub struct ExSmallRng(SmallRng);

/// `SmallRng::from_entropy`: a generator seeded from the system's entropy.
/// Nothing is claimed of the seed.
#[verifier::external_body]
pub fn rng_from_entropy() -> SmallRng {
    SmallRng::from_entropy()
}

/// `SliceRandom::choose` on a slice: `None` exactly when the slice is empty,
/// and otherwise one of its elements. Which one is left to chance.
#[verifier::external_body]
pub fn choose_one<T: Copy>(items: &[T], rng: &mut SmallRng) -> (r: Option<T>)
    ensures
        r is None <==> items@.len() == 0,
        r matches Some(t) ==> items@.contains(t),
{
    items.choose(rng).copied()
}

/// A sample of `Uniform::new_inclusive(0, high)`: a number from 0 to `high`,
/// left to chance.
#[verifier::external_body]
pub fn sample_inclusive(high: usize, rng: &mut SmallRng) -> (r: usize)
    ensures
        r <= high,
{
    Uniform::new_inclusive(0, high).sample(rng)
}

} // verus!
