//! The injectable random source the pipeline stages draw from.
//!
//! Every random decision (column shuffles, frontier pops, colour tie-breaks)
//! goes through the handful of wrappers below, so a run is reproducible when
//! the caller seeds the generator.

use vstd::prelude::*;

verus! {

#[verifier::external_type_specification]
#[verifier::external_body]
pub struct ExStdRng(rand::rngs::StdRng);

/// Relies on rand's `StdRng: SeedableRng`: `seed_from_u64` builds a generator
/// from the given seed.  Nothing is assumed about the values it will produce.
#[verifier::external_body]
pub fn seed_rng(seed: u64) -> rand::rngs::StdRng {
    <rand::rngs::StdRng as rand::SeedableRng>::seed_from_u64(seed)
}

/// Relies on rand's `RngExt::random_range`: a value drawn from `0..n` is below
/// `n`.  The range is non-empty, so the call cannot panic.
#[verifier::external_body]
pub fn rand_below(rng: &mut rand::rngs::StdRng, n: usize) -> (r: usize)
    requires
        n > 0,
    ensures
        r < n,
{
    rand::RngExt::random_range(rng, 0..n)
}

/// Relies on rand's `SliceRandom::shuffle`: the slice is permuted in place,
/// so the multiset of its elements (and hence its length) is unchanged.
#[verifier::external_body]
pub fn shuffle_u32s(rng: &mut rand::rngs::StdRng, v: &mut Vec<u32>)
    ensures
        final(v)@.to_multiset() == old(v)@.to_multiset(),
        final(v)@.len() == old(v)@.len(),
{
    rand::seq::SliceRandom::shuffle(v.as_mut_slice(), rng)
}

} // verus!
