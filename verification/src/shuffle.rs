//! The random order in which the mines are laid.

use vstd::prelude::*;
use rand::seq::SliceRandom;

verus! {

/// Calls `SliceRandom::shuffle` of the crate `rand` on the positions, with
/// the generator of the current thread, `rand::rng()`. The shuffle only swaps
/// elements: which order comes out is left to chance, and what the vector
/// holds is what it held before, each position as often as before.
#[verifier::external_body]
pub(crate) fn shuffle(positions: &mut Vec<usize>)
    ensures
        final(positions)@.to_multiset() == old(positions)@.to_multiset(),
{
    positions.shuffle(&mut rand::rng());
}

} // verus!
