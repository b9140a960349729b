//! The seeded random source used for tie-breaking selections, behind trusted
//! declarations: the generator type itself and a single uniform draw.

use vstd::prelude::*;
use rand::distributions::Distribution;

verus! {

#[verifier::external_type_specification]
#[verifier::external_body]
pub struct ExSplitMix64(rand_xoshiro::SplitMix64);

/// Relies on rand's `Uniform::from(0..len)` together with
/// `Distribution::sample`: the sampled index is uniformly distributed over
/// `0..len`, so in particular it lies below `len`. Nothing more is assumed;
/// the value depends on the generator's hidden state, which the call advances.
#[verifier::external_body]
pub(crate) fn draw_index(rand: &mut rand_xoshiro::SplitMix64, len: usize) -> (i: usize)
    requires
        len >= 1,
    ensures
        i < len,
{
    rand::distributions::Uniform::from(0..len).sample(rand)
}

} // verus!
