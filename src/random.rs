//! The random source: every draw the engine makes goes through these items.
use rand::seq::SliceRandom;
use rand::Rng;
use vstd::prelude::*;

verus! {

/// The seedable generator from `rand` that the engine draws from.
#[verifier::external_type_specification]
#[verifier::external_body]
pub struct ExStdRng(rand::rngs::StdRng);

/// Relies on `rand::Rng::gen_range` over `lo..hi`: a value in the half-open
/// range (it panics only on an empty range, which `requires` rules out).
#[verifier::external_body]
pub(crate) fn random_range(rng: &mut rand::rngs::StdRng, lo: usize, hi: usize) -> (r: usize)
    requires
        lo < hi,
    ensures
        lo <= r < hi,
{
    rng.gen_range(lo..hi)
}

/// Relies on `rand::Rng::gen_ratio`: true with probability `num / den`; it is
/// always true when `num == den` and never true when `num == 0` (it panics when
/// `den == 0` or `num > den`, which `requires` rules out).
#[verifier::external_body]
pub(crate) fn random_ratio(rng: &mut rand::rngs::StdRng, num: u32, den: u32) -> (r: bool)
    requires
        0 < den,
        num <= den,
    ensures
        num == den ==> r,
        num == 0 ==> !r,
{
    rng.gen_ratio(num, den)
}

/// Relies on `rand::seq::SliceRandom::choose`: `None` on an empty slice, else
/// one of its elements.
#[verifier::external_body]
pub(crate) fn choose_one<T: Copy>(rng: &mut rand::rngs::StdRng, items: &Vec<T>) -> (r: Option<T>)
    ensures
        r is None <==> items@.len() == 0,
        r matches Some(v) ==> items@.contains(v),
{
    items.choose(rng).copied()
}

/// Relies on `rand::seq::SliceRandom::shuffle`: the elements are permuted in
/// place, none added or lost.
#[verifier::external_body]
pub(crate) fn shuffle_in_place<T>(rng: &mut rand::rngs::StdRng, items: &mut Vec<T>)
    ensures
        final(items)@.to_multiset() == old(items)@.to_multiset(),
        final(items)@.len() == old(items)@.len(),
{
    items.shuffle(rng)
}

} // verus!
