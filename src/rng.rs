//! The random source: rand's standard generator, and the two calls made on it.

use vstd::prelude::*;
use rand::seq::SliceRandom;
use rand::Rng;

verus! {

/// rand's standard seedable generator, carried through as an opaque value.
#[verifier::external_type_specification]
#[verifier::external_body]
pub struct ExStdRng(rand::rngs::StdRng);

/// Relies on rand's `SliceRandom::shuffle` for slices: a pass of swaps that
/// permutes the entries, adding and losing none.
#[verifier::external_body]
pub(crate) fn shuffle_labels(labels: &mut Vec<u8>, rng: &mut rand::rngs::StdRng)
    ensures
        final(labels)@.to_multiset() == old(labels)@.to_multiset(),
{
    labels.as_mut_slice().shuffle(rng);
}

/// Relies on rand's `Rng::gen_range` over `0..bound`: a value below `bound`.
/// It panics only on an empty range, which `requires` leaves out.
#[verifier::external_body]
pub(crate) fn draw_below(rng: &mut rand::rngs::StdRng, bound: u8) -> (r: u8)
    requires
        0 < bound,
    ensures
        r < bound,
{
    rng.gen_range(0..bound)
}

} // verus!
