use vstd::prelude::*;

use rand::seq::SliceRandom;
use rand::Rng;

verus! {

/// Relies on rand::Rng::gen_range over the range `0..bound`, which panics on
/// an empty range and otherwise returns a value inside it: the draw is below
/// `bound`. Nothing more is promised of a random draw.
#[verifier::external_body]
pub(crate) fn rand_below(bound: u64) -> (r: u64)
    requires
        bound > 0,
    ensures
        r < bound,
{
    rand::thread_rng().gen_range(0..bound)
}

/// Relies on rand::seq::SliceRandom::shuffle, an in-place Fisher-Yates
/// shuffle: the result is a permutation of the input, so it keeps the length
/// and the multiset of items. Nothing is promised of the order.
#[verifier::external_body]
pub(crate) fn shuffle_ids(items: &mut Vec<u32>)
    ensures
        final(items)@.len() == old(items)@.len(),
        final(items)@.to_multiset() == old(items)@.to_multiset(),
{
    items.shuffle(&mut rand::thread_rng());
}

} // verus!
