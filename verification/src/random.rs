//! The calls into `rand` that the library makes: the thread-local
//! generator, uniform draws and the in-place shuffle. What the contracts
//! below claim holds of every value a draw can take.

use vstd::prelude::*;
use rand::Rng;
use rand::seq::SliceRandom;

verus! {

#[verifier::external_type_specification]
#[verifier::external_body]
pub struct ExThreadRng(rand::rngs::ThreadRng);

/// `rand::thread_rng`: a handle on the thread-local generator. Nothing is
/// claimed of its state.
#[verifier::external_body]
pub(crate) fn thread_rng() -> rand::rngs::ThreadRng {
    rand::thread_rng()
}

/// `Rng::gen_range(0..n)` on `usize`: a draw below `n`. The source asserts
/// that the range is not empty, so `n > 0` is required.
#[verifier::external_body]
pub(crate) fn random_below(rng: &mut rand::rngs::ThreadRng, n: usize) -> (r: usize)
    requires
        n > 0,
    ensures
        r < n,
{
    rng.gen_range(0..n)
}

/// `Rng::gen_range(lo..=hi)` on `i32`: a draw between `lo` and `hi`
/// inclusive. The source asserts that the range is not empty, so
/// `lo <= hi` is required.
#[verifier::external_body]
pub(crate) fn random_between(rng: &mut rand::rngs::ThreadRng, lo: i32, hi: i32) -> (r: i32)
    requires
        lo <= hi,
    ensures
        lo <= r <= hi,
{
    rng.gen_range(lo..=hi)
}

/// `Rng::gen::<bool>()`: a fair coin. Either value may come back.
#[verifier::external_body]
pub(crate) fn random_coin(rng: &mut rand::rngs::ThreadRng) -> bool {
    rng.gen::<bool>()
}

/// `SliceRandom::shuffle` on the elements of `v`: the Fisher–Yates shuffle,
/// which only swaps elements, so the same elements come out, each as often
/// as it went in; their order depends on the draws.
#[verifier::external_body]
pub(crate) fn shuffle_values<T>(v: &mut Vec<T>, rng: &mut rand::rngs::ThreadRng)
    ensures
        final(v)@.to_multiset() == old(v)@.to_multiset(),
{
    v.as_mut_slice().shuffle(rng)
}

} // verus!
