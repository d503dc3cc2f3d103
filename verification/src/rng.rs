//! Trusted wrappers around the process-local random source.

use rand::seq::SliceRandom;
use vstd::prelude::*;

verus! {

/// Relies on rand's `SliceRandom::shuffle`: an in-place Fisher-Yates pass that
/// only swaps elements, so the result is a permutation of the input.
#[verifier::external_body]
pub(crate) fn shuffle_choices(v: &mut Vec<u64>)
    ensures
        final(v)@.to_multiset() == old(v)@.to_multiset(),
        final(v)@.len() == old(v)@.len(),
{
    let mut rng = rand::thread_rng();
    v.shuffle(&mut rng);
}

/// Relies on rand's `SliceRandom::choose`: on a non-empty slice it returns
/// `Some(&self[i])` for a drawn index `i < len`.
#[verifier::external_body]
pub(crate) fn pick_from(v: &Vec<u64>) -> (r: u64)
    requires
        v@.len() > 0,
    ensures
        v@.contains(r),
{
    let mut rng = rand::thread_rng();
    *v.choose(&mut rng).unwrap()
}

} // verus!
