use vstd::prelude::*;
use rand::Rng;
use rand::rngs::StdRng;

verus! {

#[verifier::external_type_specification]
#[verifier::external_body]
pub struct ExStdRng(StdRng);

/// Relies on rand's `Rng::gen_ratio`: true with probability
/// `numerator / denominator`, never true for a zero numerator and always true
/// when the two are equal. It panics when `denominator` is 0 or smaller than
/// `numerator`.
#[verifier::external_body]
pub(crate) fn chance(rng: &mut StdRng, numerator: u32, denominator: u32) -> (r: bool)
    requires
        0 < denominator,
        numerator <= denominator,
    ensures
        numerator == 0 ==> !r,
        numerator == denominator ==> r,
{
    rng.gen_ratio(numerator, denominator)
}

/// Relies on rand's `Rng::gen::<bool>`: a fair coin.
#[verifier::external_body]
pub(crate) fn coin(rng: &mut StdRng) -> bool {
    rng.gen::<bool>()
}

/// Relies on rand's `Rng::gen_range` over `0..n`: a uniform index below `n`.
/// It panics on an empty range.
#[verifier::external_body]
pub(crate) fn index_below(rng: &mut StdRng, n: usize) -> (r: usize)
    requires
        n > 0,
    ensures
        r < n,
{
    rng.gen_range(0..n)
}

} // verus!
