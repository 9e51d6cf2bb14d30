//! Chance. The random numbers come from the `rand` crate; what this crate
//! takes on trust about them is stated here.

use vstd::prelude::*;
use rand::rngs::StdRng;
use rand::seq::SliceRandom;
use rand::Rng;

verus! {

/// The standard random number generator of `rand`. Nothing is known of what
/// it holds.
#[verifier::external_type_specification]
#[verifier::external_body]
pub struct ExStdRng(rand::rngs::StdRng);

/// `Rng::gen_ratio`: true with a chance of `numerator` in `denominator`.
/// When the two are equal the answer is always true, and when the numerator
/// is 0 it is always false; nothing else is claimed of it. The call panics
/// on a denominator of 0 or a numerator above it, so neither is let in.
#[verifier::external_body]
pub(crate) fn roll_ratio(rng: &mut StdRng, numerator: u32, denominator: u32) -> (r: bool)
    requires
        0 < denominator,
        numerator <= denominator,
    ensures
        numerator == denominator ==> r,
        numerator == 0 ==> !r,
{
    rng.gen_ratio(numerator, denominator)
}

/// `Rng::gen_range` from 0 to `bound`: a number from 0 up to, and not
/// including, `bound`. The call panics where the range is empty, so a bound
/// of 0 is not let in.
#[verifier::external_body]
pub(crate) fn roll_below(rng: &mut StdRng, bound: usize) -> (r: usize)
    requires
        bound > 0,
    ensures
        r < bound,
{
    rng.gen_range(0, bound)
}

/// `SliceRandom::choose` on a list that is not empty: one of its entries,
/// picked at random. All that is claimed is that the answer is in the list.
#[verifier::external_body]
pub(crate) fn roll_one_of(rng: &mut StdRng, choices: &Vec<usize>) -> (r: usize)
    requires
        choices@.len() > 0,
    ensures
        choices@.contains(r),
{
    *choices.choose(rng).unwrap()
}

} // verus!
