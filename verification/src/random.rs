//! Random numbers, drawn from a generator that the caller hands in.

use vstd::prelude::*;
use rand::Rng;
use rand::rngs::StdRng;

verus! {

/// `StdRng` of rand: the generator that the caller seeds and hands in.
/// Nothing is known of what it holds.
#[verifier::external_type_specification]
#[verifier::external_body]
pub struct ExStdRng(rand::rngs::StdRng);

/// `Rng::gen_range` of rand on the half-open range from `low` to `high`.
/// It panics on an empty range, which the precondition leaves out. Of the
/// number drawn only this is claimed: it lies in the range.
#[verifier::external_body]
pub(crate) fn gen_range(rng: &mut StdRng, low: i64, high: i64) -> (r: i64)
    requires
        low < high,
    ensures
        low <= r < high,
{
    rng.gen_range(low..high)
}

/// `Rng::gen_ratio` of rand: true with a chance of `numerator` in
/// `denominator`. It panics on a zero denominator and on a numerator above
/// the denominator, which the precondition leaves out. Claimed are the two
/// certain cases only: always true for a chance of one, never for none.
#[verifier::external_body]
pub(crate) fn gen_ratio(rng: &mut StdRng, numerator: u32, denominator: u32) -> (b: bool)
    requires
        0 < denominator,
        numerator <= denominator,
    ensures
        numerator == denominator ==> b,
        numerator == 0 ==> !b,
{
    rng.gen_ratio(numerator, denominator)
}

} // verus!
