use vstd::prelude::*;
use rand::seq::SliceRandom;

verus! {

/// Relies on rand's `SliceRandom::shuffle`: it reorders the slice in place,
/// so the result holds exactly the elements the input held, in some order.
#[verifier::external_body]
pub(crate) fn shuffle_values<T>(v: &mut Vec<T>)
    ensures
        final(v)@.to_multiset() == old(v)@.to_multiset(),
        final(v)@.len() == old(v)@.len(),
{
    v.as_mut_slice().shuffle(&mut rand::rng())
}

/// Relies on rand's `random_range`: a value drawn from `0..n` lies below `n`.
/// `random_range` panics on an empty range, so `n == 0` is excluded here.
#[verifier::external_body]
pub(crate) fn rand_below(n: usize) -> (r: usize)
    requires
        n >= 1,
    ensures
        r < n,
{
    rand::random_range(0..n)
}

} // verus!
