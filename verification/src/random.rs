//! Random choices: a seeded ChaCha20 generator and the thread-local
//! generator, both from the `rand` family of crates.

use rand::seq::SliceRandom;
use rand::Rng;
use vstd::prelude::*;

verus! {

/// `rand_chacha::ChaCha20Rng`, carried as an opaque value.
#[verifier::external_type_specification]
#[verifier::external_body]
pub struct ExChaCha20Rng(rand_chacha::ChaCha20Rng);

/// `rand::rngs::ThreadRng`, carried as an opaque value.
#[verifier::external_type_specification]
#[verifier::external_body]
pub struct ExThreadRng(rand::rngs::ThreadRng);

/// Calls `rand::Rng::gen_range` on `i32` bounds. rand 0.7 documents the
/// result as a value in `[low, high)` and panics when `low >= high`; which
/// value comes out depends on the generator's state, so only the range is
/// stated.
#[verifier::external_body]
pub(crate) fn gen_range_i32(rng: &mut rand_chacha::ChaCha20Rng, low: i32, high: i32) -> (r: i32)
    requires
        low < high,
    ensures
        low <= r < high,
{
    rng.gen_range(low, high)
}

/// Calls `rand::Rng::gen_range` on `usize` bounds. rand 0.7 documents the
/// result as a value in `[low, high)` and panics when `low >= high`; which
/// value comes out depends on the generator's state, so only the range is
/// stated.
#[verifier::external_body]
pub(crate) fn gen_range_usize(rng: &mut rand_chacha::ChaCha20Rng, low: usize, high: usize) -> (r: usize)
    requires
        low < high,
    ensures
        low <= r < high,
{
    rng.gen_range(low, high)
}

/// Calls `rand::thread_rng`, a generator seeded from the operating system.
#[verifier::external_body]
pub(crate) fn thread_rng() -> rand::rngs::ThreadRng {
    rand::thread_rng()
}

/// Calls `rand::seq::SliceRandom::shuffle` (a Fisher-Yates shuffle made of
/// swaps) on the vector's elements. The result is a permutation of the input:
/// the same elements, each as often as before; the order depends on the
/// generator and is not stated.
#[verifier::external_body]
pub(crate) fn shuffle_actions(actions: &mut Vec<usize>, rng: &mut rand::rngs::ThreadRng)
    ensures
        final(actions)@.to_multiset() == old(actions)@.to_multiset(),
{
    actions.shuffle(rng)
}

} // verus!
