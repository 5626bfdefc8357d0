//! Neighbor generator: a uniformly random single-bit-flip copy.

use vstd::prelude::*;
use crate::model::TruthAssignment;
use crate::model::flipped_at;

verus! {

/// A copy of `state` with one uniformly chosen variable flipped. The input is
/// never mutated, so the caller can compare old and new values afterwards.
pub fn next_state(state: &TruthAssignment) -> (r: TruthAssignment)
    requires
        1 <= state@.len(),
    ensures
        r@.len() == state@.len(),
        exists|v: int| 1 <= v <= state@.len() && r@ == #[trigger] flipped_at(state@, v - 1),
{
    let index = crate::rng::sample_index(state.assignments.len());
    let mut next = state.duplicate();
    let prior = next.assignments[index - 1];
    next.assignments.set(index - 1, !prior);
    proof {
        assert(next@ == flipped_at(state@, index - 1 as int));
    }
    next
}

} // verus!
