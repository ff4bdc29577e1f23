//! The random number generators of `rand` and the few draws the library makes
//! from them. What a draw returns depends on the generator's hidden state, so
//! each contract states only what holds of every outcome.
use rand::RngExt;
use rand::seq::IndexedRandom;
use rand::rngs::StdRng;
use rand::rngs::ThreadRng;
use vstd::prelude::*;

verus! {

/// `rand::rngs::ThreadRng`, the lazily seeded generator local to a thread.
#[verifier::external_type_specification]
#[verifier::external_body]
pub struct ExThreadRng(ThreadRng);

/// `rand::rngs::StdRng`, the seedable standard generator.
#[verifier::external_type_specification]
#[verifier::external_body]
pub struct ExStdRng(StdRng);

/// Calls `rand::rng()`, which hands out the thread's generator.
/// Nothing is promised of its state.
#[verifier::external_body]
pub(crate) fn thread_rng() -> ThreadRng {
    rand::rng()
}

/// Calls `RngExt::random_range` with the range `lo..hi`.
/// `rand` documents that the value lies in that range and that an empty
/// range panics, hence the `requires`.
#[verifier::external_body]
pub(crate) fn random_i32_in(rng: &mut ThreadRng, lo: i32, hi: i32) -> (r: i32)
    requires
        lo < hi,
    ensures
        lo <= r < hi,
{
    rng.random_range(lo..hi)
}

/// Calls `RngExt::random_ratio(numerator, denominator)`, which is `true` with
/// probability `numerator / denominator`. `rand` documents that it panics when
/// the denominator is zero or smaller than the numerator, that a numerator of
/// zero always gives `false`, and that a numerator equal to the denominator
/// always gives `true`.
#[verifier::external_body]
pub(crate) fn random_ratio(rng: &mut ThreadRng, numerator: u32, denominator: u32) -> (r: bool)
    requires
        0 < denominator,
        numerator <= denominator,
    ensures
        numerator == 0 ==> !r,
        numerator == denominator ==> r,
{
    rng.random_ratio(numerator, denominator)
}

/// Calls `IndexedRandom::choose` on a slice and copies the chosen element.
/// `rand` documents that it returns `None` exactly when the slice is empty,
/// and otherwise one of the slice's elements.
#[verifier::external_body]
pub(crate) fn choose_from<T: Copy>(rng: &mut ThreadRng, items: &[T]) -> (r: Option<T>)
    ensures
        r is None <==> items@.len() == 0,
        r matches Some(v) ==> items@.contains(v),
{
    items.choose(rng).copied()
}

/// Calls `rand::seq::index::sample(rng, length, amount)` and collects the
/// indices into a `Vec`. `rand` documents that it draws exactly `amount`
/// distinct indices from `0..length` and panics when `amount > length`.
#[verifier::external_body]
pub(crate) fn sample_indices(rng: &mut StdRng, length: usize, amount: usize) -> (r: Vec<usize>)
    requires
        amount <= length,
    ensures
        r@.len() == amount,
        forall|i: int| 0 <= i < r@.len() ==> r@[i] < length,
        forall|i: int, j: int| 0 <= i < j < r@.len() ==> r@[i] != r@[j],
{
    rand::seq::index::sample(rng, length, amount).into_vec()
}

} // verus!
