use vstd::prelude::*;

use rand::rngs::SmallRng;
use rand::Rng;

verus! {

#[verifier::external_type_specification]
#[verifier::external_body]
pub struct ExSmallRng(SmallRng);

/// Relies on rand's Rng::gen_range over `low..high`: it returns a value of
/// that half-open range, and panics only when the range is empty.
#[verifier::external_body]
pub(crate) fn gen_range_usize(rng: &mut SmallRng, low: usize, high: usize) -> (r: usize)
    requires
        low < high,
    ensures
        low <= r < high,
{
    rng.gen_range(low..high)
}

/// Relies on rand's Rng::gen_range over `low..high`: it returns a value of
/// that half-open range, and panics only when the range is empty.
#[verifier::external_body]
pub(crate) fn gen_range_i64(rng: &mut SmallRng, low: i64, high: i64) -> (r: i64)
    requires
        low < high,
    ensures
        low <= r < high,
{
    rng.gen_range(low..high)
}

/// Relies on rand's SliceRandom::shuffle: it permutes the slice in place,
/// so the multiset of elements and the length are unchanged.
#[verifier::external_body]
pub(crate) fn shuffle_coords(rng: &mut SmallRng, v: &mut Vec<(usize, usize)>)
    ensures
        final(v)@.to_multiset() == old(v)@.to_multiset(),
        final(v)@.len() == old(v)@.len(),
{
    rand::seq::SliceRandom::shuffle(v.as_mut_slice(), rng)
}

} // verus!
