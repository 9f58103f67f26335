use vstd::prelude::*;
use rand::rngs::StdRng;
use rand::RngCore;
use rand::seq::SliceRandom;

verus! {

/// `rand::rngs::StdRng` is opaque to the verifier: a seedable, stateful source
/// of random bits. Callers seed it themselves through rand's `SeedableRng`.
#[verifier::external_type_specification]
#[verifier::external_body]
pub struct ExStdRng(StdRng);

/// Relies on rand's `RngCore::next_u64`. Nothing is assumed of the value
/// drawn: every caller must be correct for every possible result.
#[verifier::external_body]
pub(crate) fn draw_u64(rng: &mut StdRng) -> u64 {
    rng.next_u64()
}

/// Relies on rand's `SliceRandom::shuffle`, a Fisher-Yates shuffle that only
/// swaps entries in place: whatever order comes out, the result is a
/// permutation of the input, so the multiset of entries is unchanged.
#[verifier::external_body]
pub(crate) fn shuffle_cells(v: &mut Vec<(usize, usize)>, rng: &mut StdRng)
    ensures
        final(v)@.to_multiset() == old(v)@.to_multiset(),
{
    v.shuffle(rng)
}

} // verus!
