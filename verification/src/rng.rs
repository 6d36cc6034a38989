//! Trusted boundary around the random number generator used during puzzle
//! generation.  Randomness promises nothing about individual outcomes, so the
//! contracts here state only what holds of every outcome: a shuffle permutes,
//! a draw stays in range, a sample is distinct and in range.

use vstd::prelude::*;

verus! {

use rand_chacha::ChaCha8Rng;
use rand::Rng;
use rand::SeedableRng;
use rand::seq::SliceRandom;

#[verifier::external_type_specification]
#[verifier::external_body]
pub struct ExChaCha8Rng(ChaCha8Rng);

/// Relies on rand_core's SeedableRng::seed_from_u64 for ChaCha8Rng: a
/// generator deterministically derived from the seed.
#[verifier::external_body]
pub fn rng_from_seed(seed: u64) -> (r: ChaCha8Rng)
{
    ChaCha8Rng::seed_from_u64(seed)
}

/// Relies on rand's SliceRandom::shuffle: an in-place permutation, so the
/// multiset of elements is unchanged.
#[verifier::external_body]
pub fn shuffle_indices(rng: &mut ChaCha8Rng, v: &mut Vec<usize>)
    ensures
        final(v)@.len() == old(v)@.len(),
        final(v)@.to_multiset() == old(v)@.to_multiset(),
{
    v.shuffle(rng)
}

/// Relies on rand's Rng::random_range over `0..bound`: a value below the
/// bound; the call panics on an empty range, hence the bound demanded here.
#[verifier::external_body]
pub fn random_below(rng: &mut ChaCha8Rng, bound: usize) -> (r: usize)
    requires
        bound > 0,
    ensures
        r < bound,
{
    rng.random_range(0..bound)
}

/// Relies on rand's Rng::random_ratio: true with probability
/// numerator/denominator; the call panics when the denominator is zero or
/// smaller than the numerator, hence the bounds demanded here.
#[verifier::external_body]
pub fn random_ratio(rng: &mut ChaCha8Rng, numerator: u32, denominator: u32) -> (r: bool)
    requires
        denominator > 0,
        numerator <= denominator,
{
    rng.random_ratio(numerator, denominator)
}

/// Relies on rand's seq::index::sample_array: exactly three distinct indices
/// below `len`, or nothing if and only if `len` is under three.
#[verifier::external_body]
pub fn sample_three_distinct(rng: &mut ChaCha8Rng, len: usize) -> (r: Option<(usize, usize, usize)>)
    ensures
        r is Some <==> len >= 3,
        r matches Some((a, b, c)) ==> a < len && b < len && c < len && a != b && a != c && b != c,
{
    let [a, b, c] = rand::seq::index::sample_array::<_, 3>(rng, len)?;
    Some((a, b, c))
}

} // verus!
