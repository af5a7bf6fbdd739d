//! The random choices of the generators, drawn from the thread-local
//! generator of the `rand` crate as `nannou_core` hands it on. That generator
//! is seeded from the operating system when a thread first uses it.

use vstd::prelude::*;
use nannou_core::rand::prelude::IteratorRandom;
use nannou_core::rand::prelude::SliceRandom;
use crate::maze::wall::Wall;

verus! {

/// Calls `nannou_core::rand::random_range`. For `min < max` that function
/// returns a value of the half-open range from `min` to `max`; on an empty
/// range it panics, so equal bounds are left out.
#[verifier::external_body]
pub(crate) fn random_range(min: usize, max: usize) -> (value: usize)
    requires
        min < max,
    ensures
        min <= value < max,
{
    nannou_core::rand::random_range(min, max)
}

/// Calls `SliceRandom::shuffle` of `rand` with the thread-local generator. The
/// slice is permuted in place by swaps: it holds the same items as before,
/// each as often as before.
#[verifier::external_body]
pub(crate) fn shuffle(walls: &mut Vec<Wall>)
    ensures
        final(walls)@.to_multiset() == old(walls)@.to_multiset(),
{
    walls.shuffle(&mut nannou_core::rand::rng());
}

/// Calls `IteratorRandom::choose` of `rand` with the thread-local generator
/// on the items of `candidates`. It returns `None` if and only if there is no
/// item, and else one of the items.
#[verifier::external_body]
pub(crate) fn choose_one(candidates: Vec<((usize, usize), Wall)>) -> (chosen: Option<((usize, usize), Wall)>)
    ensures
        candidates@.len() == 0 ==> chosen.is_none(),
        candidates@.len() > 0 ==> chosen.is_some() && candidates@.contains(chosen.unwrap()),
{
    candidates.into_iter().choose(&mut nannou_core::rand::rng())
}

} // verus!
