//! Trusted boundary to the `rand` crate: the seedable generator and the few
//! random draws the library needs. Contracts state only what holds of every
//! outcome; nothing is promised about which value comes back.

use vstd::prelude::*;

verus! {

#[verifier::external_type_specification]
#[verifier::external_body]
pub struct ExStdRng(rand::rngs::StdRng);

/// Relies on rand's `StdRng::seed_from_u64`: builds a deterministic generator
/// from a seed. Nothing is stated of the stream it produces.
#[verifier::external_body]
pub fn seed_rng(seed: u64) -> rand::rngs::StdRng {
    <rand::rngs::StdRng as rand::SeedableRng>::seed_from_u64(seed)
}

/// Relies on rand's `Rng::gen_range` over the non-empty range `0..11`: the
/// result lies in that range.
#[verifier::external_body]
pub fn random_budget(rng: &mut rand::rngs::StdRng) -> (r: i64)
    ensures
        0 <= r <= 10,
{
    rand::Rng::gen_range(rng, 0..11)
}

/// Relies on rand's `Rng::gen` for `bool`: a coin flip; nothing is promised
/// of the outcome.
#[verifier::external_body]
pub fn random_bool(rng: &mut rand::rngs::StdRng) -> bool {
    rand::Rng::gen(rng)
}

/// Relies on rand's `SliceRandom::shuffle`: permutes the elements in place,
/// so the multiset of elements (and hence the length) is unchanged.
#[verifier::external_body]
pub fn shuffle_vec<T>(rng: &mut rand::rngs::StdRng, v: &mut Vec<T>)
    ensures
        final(v)@.to_multiset() == old(v)@.to_multiset(),
        final(v)@.len() == old(v)@.len(),
{
    rand::seq::SliceRandom::shuffle(v.as_mut_slice(), rng)
}

} // verus!
