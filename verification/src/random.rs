use vstd::prelude::*;
use rand::{Rng, RngCore, SeedableRng};
use rand_chacha::ChaCha8Rng;

verus! {

/// The random number generator of the simulation: its state is opaque here.
#[verifier::external_type_specification]
#[verifier::external_body]
pub struct ExChaCha8Rng(ChaCha8Rng);

/// The generator that `ChaCha8Rng::seed_from_u64` builds from `seed`.
pub uninterp spec fn seeded_state(seed: u64) -> ChaCha8Rng;

/// `ChaCha8Rng::seed_from_u64`: the generator it builds is a function of
/// the seed alone. What its state holds is not said.
#[verifier::external_body]
pub(crate) fn rng_from_seed(seed: u64) -> (r: ChaCha8Rng)
    ensures
        r == seeded_state(seed),
{
    ChaCha8Rng::seed_from_u64(seed)
}

/// `RngCore::next_u64`: the next 64 random bits of the stream. Any value
/// may come back; the generator moves on.
#[verifier::external_body]
pub(crate) fn random_u64(rng: &mut ChaCha8Rng) -> u64 {
    rng.next_u64()
}

/// `Rng::gen_range(low..high)` on `usize`, which panics on an empty range:
/// some value at least `low` and below `high`.
#[verifier::external_body]
pub(crate) fn random_usize_in(rng: &mut ChaCha8Rng, low: usize, high: usize) -> (r: usize)
    requires
        low < high,
    ensures
        low <= r < high,
{
    rng.gen_range(low..high)
}

/// `Rng::gen_range(low..=high)` on `u32`, which panics on an empty range:
/// some value from `low` up to and including `high`.
#[verifier::external_body]
pub(crate) fn random_u32_through(rng: &mut ChaCha8Rng, low: u32, high: u32) -> (r: u32)
    requires
        low <= high,
    ensures
        low <= r <= high,
{
    rng.gen_range(low..=high)
}

/// `Rng::gen_ratio(numerator, denominator)`, which panics when the
/// denominator is 0 or below the numerator: `true` with chance
/// `numerator / denominator`, so always `false` for a numerator of 0 and
/// always `true` when the two are equal.
#[verifier::external_body]
pub(crate) fn random_ratio(rng: &mut ChaCha8Rng, numerator: u32, denominator: u32) -> (r: bool)
    requires
        0 < denominator,
        numerator <= denominator,
    ensures
        numerator == 0 ==> !r,
        numerator == denominator ==> r,
{
    rng.gen_ratio(numerator, denominator)
}

/// The seed that a run uses: the one given, 0 when none is.
pub open spec fn seed_or_zero(seed: Option<u64>) -> u64 {
    match seed {
        Some(v) => v,
        None => 0,
    }
}

/// The generator of a simulation run with the given seed, 0 when none is
/// given.
pub fn seeded_rng(seed: Option<u64>) -> (r: ChaCha8Rng)
    ensures
        r == seeded_state(seed_or_zero(seed)),
{
    let seed_value = match seed {
        Some(v) => v,
        None => 0,
    };
    rng_from_seed(seed_value)
}

} // verus!
