use vstd::prelude::*;
use rand::Rng;

verus! {

/// Draws a bool with rand's `Rng::gen_ratio`, on the generator that rand's
/// `thread_rng` hands out: true with a chance of `numerator` in
/// `denominator`. Nothing is claimed of a single draw. The inputs on which
/// rand panics, a zero denominator and a numerator above the denominator,
/// are left out.
#[verifier::external_body]
pub(crate) fn gen_ratio(numerator: u32, denominator: u32) -> (hit: bool)
    requires
        denominator > 0,
        numerator <= denominator,
{
    rand::thread_rng().gen_ratio(numerator, denominator)
}

/// Draws a number with rand's `Rng::gen_range`, on the generator that rand's
/// `thread_rng` hands out, from the half-open range from 0 to `bound`. All
/// that is claimed is that the draw lies in the range. Rand panics on an
/// empty range, which is left out.
#[verifier::external_body]
pub(crate) fn gen_below(bound: usize) -> (n: usize)
    requires
        bound > 0,
    ensures
        n < bound,
{
    rand::thread_rng().gen_range(0..bound)
}

} // verus!
