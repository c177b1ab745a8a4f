use vstd::prelude::*;

use rand::rngs::ThreadRng;
use rand::RngExt;

verus! {

/// `rand`'s thread-local generator, carried through as an opaque value.
#[verifier::external_type_specification]
#[verifier::external_body]
pub struct ExThreadRng(ThreadRng);

/// Calls `rand::RngExt::random_range` on the inclusive range `lo..=hi` of
/// `i32`. The crate samples uniformly and, for a non-empty range, always
/// returns a value inside it; which value comes out is left unstated.
#[verifier::external_body]
pub(crate) fn random_i32_inclusive(rng: &mut ThreadRng, lo: i32, hi: i32) -> (r: i32)
    requires
        lo <= hi,
    ensures
        lo <= r <= hi,
{
    rng.random_range(lo..=hi)
}

/// Calls `rand::RngExt::random_range` on the inclusive range `lo..=hi` of
/// `usize`. For a non-empty range the result lies inside it; which value
/// comes out is left unstated.
#[verifier::external_body]
pub(crate) fn random_usize_inclusive(rng: &mut ThreadRng, lo: usize, hi: usize) -> (r: usize)
    requires
        lo <= hi,
    ensures
        lo <= r <= hi,
{
    rng.random_range(lo..=hi)
}

/// Calls `rand::RngExt::random_ratio`: `true` with probability
/// `numerator / denominator`. The crate panics when the denominator is 0 or
/// the numerator exceeds it, and documents that a numerator of 0 always gives
/// `false` and a numerator equal to the denominator always gives `true`;
/// otherwise the outcome is left unstated.
#[verifier::external_body]
pub(crate) fn random_ratio(rng: &mut ThreadRng, numerator: u32, denominator: u32) -> (b: bool)
    requires
        0 < denominator,
        numerator <= denominator,
    ensures
        numerator == 0 ==> !b,
        numerator == denominator ==> b,
{
    rng.random_ratio(numerator, denominator)
}

} // verus!
