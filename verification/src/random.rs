//! Random draws, taken from `rand`'s thread-local generator.
use vstd::prelude::*;
use rand::Rng;

verus! {

/// `rand::rngs::ThreadRng`, the thread-local generator.
#[verifier::external_type_specification]
#[verifier::external_body]
pub struct ExThreadRng(rand::rngs::ThreadRng);

/// `rand::thread_rng()`: a handle to the thread-local generator. Nothing is
/// stated of its state.
#[verifier::external_body]
pub(crate) fn thread_rng() -> rand::rngs::ThreadRng {
    rand::thread_rng()
}

/// `Rng::gen_range(low..=high)`: a value drawn uniformly from `low..=high`.
/// The contract claims only that it lies in that range; `gen_range` panics
/// on an empty range, which `requires` rules out.
#[verifier::external_body]
pub(crate) fn random_in(rng: &mut rand::rngs::ThreadRng, low: i32, high: i32) -> (r: i32)
    requires
        low <= high,
    ensures
        low <= r <= high,
{
    rng.gen_range(low..=high)
}

/// `Rng::gen_ratio(numerator, denominator)`: true with probability
/// `numerator / denominator`. The contract claims only the certain cases: never
/// for a zero numerator, always when numerator equals denominator. It panics
/// when `denominator` is 0 or below `numerator`, which `requires` rules out.
#[verifier::external_body]
pub(crate) fn random_ratio(rng: &mut rand::rngs::ThreadRng, numerator: u32, denominator: u32) -> (b: bool)
    requires
        0 < denominator,
        numerator <= denominator,
    ensures
        numerator == 0 ==> !b,
        numerator == denominator ==> b,
{
    rng.gen_ratio(numerator, denominator)
}

} // verus!
