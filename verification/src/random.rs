//! The pseudo-random source behind the workload generators.
//!
//! The generator is opaque to verification: every function here states only
//! what holds of each value it can return.

use vstd::prelude::*;
use rand::rngs::StdRng;
use rand::{Rng, SeedableRng};

verus! {

/// `rand::rngs::StdRng`, the generator of the outside crate, carried through as a value
/// that nothing is known of.
#[verifier::external_type_specification]
#[verifier::external_body]
pub struct ExStdRng(rand::rngs::StdRng);

/// `SeedableRng::seed_from_u64` for `StdRng`: a generator started from `seed`. Nothing is
/// claimed of its state.
#[verifier::external_body]
pub(crate) fn seeded(seed: u64) -> (rng: StdRng) {
    StdRng::seed_from_u64(seed)
}

/// `Rng::random_range` on the half-open range `0..high` of `usize`: the value drawn lies in
/// the range. The outside function panics on an empty range, which `high > 0` rules out.
#[verifier::external_body]
pub(crate) fn random_index(rng: &mut StdRng, high: usize) -> (r: usize)
    requires
        high > 0,
    ensures
        r < high,
{
    rng.random_range(0..high)
}

/// `Rng::random_range` on the closed range `0..=high` of `usize`: the value drawn lies in
/// the range, which is never empty.
#[verifier::external_body]
pub(crate) fn random_index_inclusive(rng: &mut StdRng, high: usize) -> (r: usize)
    ensures
        r <= high,
{
    rng.random_range(0..=high)
}

/// `Rng::random_range` on the half-open range `0..high` of `i32`: the value drawn lies in
/// the range. The outside function panics on an empty range, which `high > 0` rules out.
#[verifier::external_body]
pub(crate) fn random_value(rng: &mut StdRng, high: i32) -> (r: i32)
    requires
        high > 0,
    ensures
        0 <= r < high,
{
    rng.random_range(0..high)
}

/// `Rng::random_ratio`: a flip that is certain to be `false` for a zero numerator and
/// certain to be `true` when numerator and denominator are equal. The outside function
/// panics on a zero denominator and on a numerator above the denominator.
#[verifier::external_body]
pub(crate) fn random_ratio(rng: &mut StdRng, numerator: u32, denominator: u32) -> (r: bool)
    requires
        denominator > 0,
        numerator <= denominator,
    ensures
        numerator == 0 ==> !r,
        numerator == denominator ==> r,
{
    rng.random_ratio(numerator, denominator)
}

} // verus!
