//! The random sources of the simulation, from the `rand` crate.
use rand::rngs::ThreadRng;
use rand::seq::SliceRandom;
use vstd::prelude::*;

verus! {

/// `rand::rngs::ThreadRng`, the thread-local generator.
#[verifier::external_type_specification]
#[verifier::external_body]
pub struct ExThreadRng(ThreadRng);

/// `rand::rng()`: a handle to the thread-local generator. Nothing is promised
/// of its state.
#[verifier::external_body]
pub(crate) fn thread_rng() -> ThreadRng {
    rand::rng()
}

/// `SliceRandom::shuffle`: puts the values in a random order. The values
/// themselves are only moved (the crate swaps them), so the result holds
/// the same values, as often each, as before.
#[verifier::external_body]
pub(crate) fn shuffle_values(values: &mut Vec<u32>, rng: &mut ThreadRng)
    ensures
        final(values)@.to_multiset() == old(values)@.to_multiset(),
{
    values.as_mut_slice().shuffle(rng);
}

/// `rand::random::<u32>()`: any `u32`; nothing more is promised.
#[verifier::external_body]
pub(crate) fn random_u32() -> u32 {
    rand::random::<u32>()
}

} // verus!
