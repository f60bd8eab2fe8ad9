//! Random draws from the thread-local generator of `rand`.

use rand::Rng;
use rand::rngs::ThreadRng;

use vstd::prelude::*;

verus! {

#[verifier::external_type_specification]
#[verifier::external_body]
pub struct ExThreadRng(ThreadRng);

/// `rand::rng`: a handle to the thread-local generator. Nothing is stated of
/// the handle; every handle of a thread draws from the same stream.
#[verifier::external_body]
pub(crate) fn thread_rng() -> ThreadRng {
    rand::rng()
}

/// `Rng::random_range` on `low..high`: a uniformly drawn integer. The claim is
/// only that it lies in the range, which `rand` documents; the empty range,
/// on which `rand` panics, is excluded.
#[verifier::external_body]
pub(crate) fn random_range(rng: &mut ThreadRng, low: i32, high: i32) -> (r: i32)
    requires
        low < high,
    ensures
        low <= r < high,
{
    rng.random_range(low..high)
}

/// `Rng::random_ratio`: `true` with probability `numerator / denominator`.
/// The claim is what `rand` documents of the certain cases: a zero numerator
/// gives `false` and a numerator equal to the denominator gives `true`; the
/// ratios on which `rand` panics are excluded.
#[verifier::external_body]
pub(crate) fn random_ratio(rng: &mut ThreadRng, numerator: u32, denominator: u32) -> (b: bool)
    requires
        0 < denominator,
        numerator <= denominator,
    ensures
        numerator == 0 ==> !b,
        numerator == denominator ==> b,
{
    rng.random_ratio(numerator, denominator)
}

} // verus!
