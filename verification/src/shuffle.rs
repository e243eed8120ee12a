//! The random order of a new game, drawn with the `rand` crate. Nothing in
//! this file is proved: Verus takes the contracts below as given.

use crate::grid::TileValue;
use rand::seq::SliceRandom;
use vstd::prelude::*;

verus! {

/// `rand::rngs::ThreadRng`, the handle to the random number generator of the
/// running thread. Nothing is known of what it holds.
#[verifier::external_type_specification]
#[verifier::external_body]
pub struct ExThreadRng(rand::rngs::ThreadRng);

/// `rand::thread_rng` hands out the generator of the running thread, which
/// the system seeds on first use (the call panics where the system has no
/// seed to give). Nothing is claimed of the handle.
pub assume_specification[ rand::thread_rng ]() -> (rng: rand::rngs::ThreadRng)
;

/// `SliceRandom::shuffle` on the values of `values`: it swaps elements of the
/// slice with each other and does nothing else, so afterwards `values` holds
/// the values it held, each as often as before. Which order comes out
/// depends on `rng`, and nothing is claimed of it.
#[verifier::external_body]
pub(crate) fn shuffle(values: &mut Vec<TileValue>, rng: &mut rand::rngs::ThreadRng)
    ensures
        final(values)@.to_multiset() == old(values)@.to_multiset(),
{
    values.shuffle(rng);
}

} // verus!
