//! Randomness for the search, behind trusted wrappers.
//!
//! The search needs two draws: a uniform variable index for the neighbor
//! generator and a uniform boolean for the initial assignment. Nothing beyond
//! the range of each draw is promised: to the verified code two draws on the
//! same input may differ.

use vstd::prelude::*;

verus! {

/// Relies on rand::Rng::gen_range over `1..=n`: a draw in `[1, n]`; the range
/// is non-empty, so the call does not panic.
#[verifier::external_body]
pub(crate) fn sample_index(n: usize) -> (r: usize)
    requires
        1 <= n,
    ensures
        1 <= r <= n,
{
    rand::Rng::gen_range(&mut rand::thread_rng(), 1..=n)
}

/// Relies on rand::Rng::gen with the Standard distribution: a random boolean.
#[verifier::external_body]
pub(crate) fn sample_bool() -> bool {
    rand::Rng::gen(&mut rand::thread_rng())
}

} // verus!
