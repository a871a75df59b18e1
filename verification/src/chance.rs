//! Draws from the thread-local random generator of the `rand` crate. What
//! comes out depends on chance, so each draw states only what holds of
//! every outcome.

use vstd::prelude::*;
use rand::Rng;
use rand::seq::SliceRandom;

verus! {

/// A number drawn from `0..bound` by `rand::Rng::gen_range` on the
/// thread-local generator. Claimed: the number lies in the range (the call
/// panics on an empty range, which `requires` leaves out). Not claimed:
/// which number comes out.
#[verifier::external_body]
pub(crate) fn random_below(bound: u8) -> (r: u8)
    requires
        bound > 0,
    ensures
        r < bound,
{
    rand::thread_rng().gen_range(0..bound)
}

/// Puts the items of `v` in a random order with
/// `rand::seq::SliceRandom::shuffle` on the thread-local generator, which
/// swaps items in place. Claimed: the same items stay, as many times each.
/// Not claimed: the order they end in.
#[verifier::external_body]
pub(crate) fn shuffle<T>(v: &mut Vec<T>)
    ensures
        final(v)@.to_multiset() == old(v)@.to_multiset(),
{
    v.shuffle(&mut rand::thread_rng())
}

} // verus!
