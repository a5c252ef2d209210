//! Parity scan: one pass, stopping at the first odd heap.

use vstd::prelude::*;
use crate::another_game::{Winner, spec_winner};

verus! {

/// Decides the game by scanning for an odd heap.
pub fn solve(heaps: &[u32]) -> (w: Winner)
    ensures
        w == spec_winner(heaps@),
{
    let mut i: usize = 0;
    while i < heaps.len()
        invariant
            i <= heaps.len(),
            forall|j: int| 0 <= j < i ==> heaps@[j] % 2 == 0,
        decreases heaps.len() - i,
    {
        if heaps[i] % 2 == 1 {
            return Winner::First;
        }
        i += 1;
    }
    Winner::Second
}

} // verus!
