//! The random draws that the search strategies make.
//!
//! Nothing here is proved: each function hands one call to a random number
//! generator and states only what holds of every outcome.

use vstd::prelude::*;
use std::collections::HashSet;
use rand::seq::IteratorRandom;
use rand::Rng;

verus! {

#[verifier::external_type_specification]
#[verifier::external_body]
pub struct ExFastRng(fastrand::Rng);

#[verifier::external_type_specification]
#[verifier::external_body]
pub struct ExThreadRng(rand::rngs::ThreadRng);

/// `fastrand::Rng::usize` on the range `0..bound`: the draw lies in the range.
/// The generator panics on an empty range, so `bound` must be positive.
#[verifier::external_body]
pub(crate) fn fast_index(rng: &mut fastrand::Rng, bound: usize) -> (r: usize)
    requires
        bound > 0,
    ensures
        r < bound,
{
    rng.usize(0..bound)
}

/// `fastrand::Rng::u8` on the range `0..bound`: the draw lies in the range.
/// The generator panics on an empty range, so `bound` must be positive.
#[verifier::external_body]
pub(crate) fn fast_u8(rng: &mut fastrand::Rng, bound: u8) -> (r: u8)
    requires
        bound > 0,
    ensures
        r < bound,
{
    rng.u8(0..bound)
}

/// `rand::Rng::gen_range` on the range `0..bound`: the draw lies in the range.
/// The generator panics on an empty range, so `bound` must be positive.
#[verifier::external_body]
pub(crate) fn thread_index(rng: &mut rand::rngs::ThreadRng, bound: usize) -> (r: usize)
    requires
        bound > 0,
    ensures
        r < bound,
{
    rng.gen_range(0..bound)
}

/// `rand::seq::IteratorRandom::choose` over the items of a set: one of its
/// items, and `None` exactly when the set is empty.
#[verifier::external_body]
pub(crate) fn choose_slot(set: &HashSet<usize>, rng: &mut rand::rngs::ThreadRng) -> (r: Option<
    usize,
>)
    ensures
        r is None <==> set@.is_empty(),
        r is Some ==> set@.contains(r->0),
{
    set.iter().choose(rng).copied()
}

/// `fastrand::shuffle`: the vector holds the same items as before, in some
/// order.
#[verifier::external_body]
pub(crate) fn shuffle_chars(v: &mut Vec<char>)
    ensures
        final(v)@.to_multiset() == old(v)@.to_multiset(),
{
    fastrand::shuffle(v);
}

} // verus!
