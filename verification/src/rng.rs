//! Ambient randomness, drawn from the `rand` crate.
//!
//! Every draw goes through one of the wrappers below; their contracts state
//! only the range of the value, which holds of every outcome, so nothing in
//! the library depends on which value actually came back.

use vstd::prelude::*;
use crate::fixed::FX_ONE;

verus! {

/// Probabilities are fixed-point numbers in `[0, PROB_ONE]`:
/// `PROB_ONE` stands for certainty.
pub const PROB_ONE: u32 = 1_000_000;

/// Relies on rand's `Rng::gen_range` over the inclusive range
/// `-FX_ONE..=FX_ONE`, which returns a value inside that non-empty range.
#[verifier::external_body]
pub(crate) fn rand_unit() -> (r: i64)
    ensures
        -FX_ONE <= r <= FX_ONE,
{
    rand::Rng::gen_range(&mut rand::thread_rng(), -FX_ONE..=FX_ONE)
}

/// Relies on rand's `Rng::gen_range` over `0..n`, which returns a value
/// inside that range; the range is non-empty because `n > 0`.
#[verifier::external_body]
pub(crate) fn rand_below(n: usize) -> (r: usize)
    requires
        n > 0,
    ensures
        r < n,
{
    rand::Rng::gen_range(&mut rand::thread_rng(), 0..n)
}

/// Relies on rand's `Rng::gen_range` over `0..PROB_ONE`, which returns a
/// value inside that non-empty range. Comparing the draw against a
/// probability `p` with `<` makes an event of probability `p / PROB_ONE`.
#[verifier::external_body]
pub(crate) fn rand_prob() -> (r: u32)
    ensures
        r < PROB_ONE,
{
    rand::Rng::gen_range(&mut rand::thread_rng(), 0..PROB_ONE)
}

} // verus!
