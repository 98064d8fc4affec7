//! The seeded pseudo-random generator that masks and projections draw from.
use rand::rngs::StdRng;
use rand::{Rng, RngCore, SeedableRng};
use vstd::prelude::*;

verus! {

#[verifier::external_type_specification]
#[verifier::external_body]
pub struct ExStdRng(StdRng);

/// Relies on rand's `SeedableRng::seed_from_u64` for `StdRng`: a generator
/// whose stream is fixed by the seed.
#[verifier::external_body]
pub(crate) fn seeded(seed: u64) -> StdRng {
    StdRng::seed_from_u64(seed)
}

/// Relies on rand's `RngCore::next_u64` for `StdRng`: the next value of the
/// stream, which may be any `u64`.
#[verifier::external_body]
pub(crate) fn next_draw(rng: &mut StdRng) -> u64 {
    rng.next_u64()
}

/// Relies on rand's `Rng::gen::<bool>`: a fair coin, either value may come.
#[verifier::external_body]
pub(crate) fn coin(rng: &mut StdRng) -> bool {
    rng.gen::<bool>()
}

} // verus!
