use vstd::prelude::*;
use rand::Rng;

verus! {

/// Relies on `rand::Rng::gen_ratio` on the thread-local generator: true with
/// probability `numerator / denominator`. Its source (`Bernoulli::from_ratio`)
/// panics when `denominator` is 0 or `numerator > denominator`, never yields
/// true for a numerator of 0, and always yields true when the two are equal.
#[verifier::external_body]
pub(crate) fn chance(numerator: u32, denominator: u32) -> (r: bool)
    requires
        0 < denominator,
        numerator <= denominator,
    ensures
        numerator == 0 ==> !r,
        numerator == denominator ==> r,
{
    rand::thread_rng().gen_ratio(numerator, denominator)
}

/// Relies on `rand::Rng::gen_range` over an inclusive range on the
/// thread-local generator: a value in `[low, high]`; it panics on an empty range.
#[verifier::external_body]
pub(crate) fn between(low: i64, high: i64) -> (r: i64)
    requires
        low <= high,
    ensures
        low <= r <= high,
{
    rand::thread_rng().gen_range(low..=high)
}

/// Relies on `rand::random::<bool>`: a fair coin.
#[verifier::external_body]
pub(crate) fn coin() -> (r: bool) {
    rand::random()
}

} // verus!
