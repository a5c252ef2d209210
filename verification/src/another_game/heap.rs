//! The same decision routed through a binary max-heap: heapify the coin
//! counts, then take counts off the top until an odd one appears.

use vstd::prelude::*;
use vstd::multiset::Multiset;
use crate::another_game::{Winner, spec_winner};
use crate::max_heap::MaxHeap;

verus! {

broadcast use {vstd::seq_lib::group_to_multiset_ensures, vstd::multiset::group_multiset_axioms};

/// Decides the game by draining a max-heap of the counts, stopping at the
/// first odd count.
pub fn solve(heaps: &[u32]) -> (w: Winner)
    ensures
        w == spec_winner(heaps@),
{
    let mut keys: Vec<u64> = Vec::new();
    let mut i: usize = 0;
    while i < heaps.len()
        invariant
            i <= heaps.len(),
            keys@.len() == i,
            forall|j: int| 0 <= j < i ==> keys@[j] == heaps@[j] as u64,
        decreases heaps.len() - i,
    {
        keys.push(heaps[i] as u64);
        i += 1;
    }
    let ghost ks = keys@;
    let ghost all = keys@.to_multiset();
    proof {
        assert forall|j: int| 0 <= j < heaps@.len() implies all.contains(#[trigger] heaps@[j] as u64) by {
            assert(ks[j] == heaps@[j] as u64);
            assert(ks.contains(ks[j]));
        }
        assert forall|x: u64| #[trigger] all.contains(x) implies exists|j: int| 0 <= j < heaps@.len() && heaps@[j] as u64 == x by {
            assert(ks.contains(x));
            let j = choose|j: int| 0 <= j < ks.len() && ks[j] == x;
            assert(heaps@[j] as u64 == x);
        }
    }
    let mut heap = MaxHeap::from_vec(keys);
    let ghost mut taken: Multiset<u64> = Multiset::empty();
    loop
        invariant
            heap.wf(),
            all =~= heap@.add(taken),
            forall|x: u64| #[trigger] taken.contains(x) ==> x % 2 == 0,
            forall|j: int| 0 <= j < heaps@.len() ==> all.contains(#[trigger] heaps@[j] as u64),
            forall|x: u64| #[trigger] all.contains(x) ==> exists|j: int| 0 <= j < heaps@.len() && heaps@[j] as u64 == x,
        decreases heap@.len(),
    {
        match heap.pop() {
            None => {
                proof {
                    broadcast use vstd::multiset::group_multiset_axioms;
                    assert forall|j: int| 0 <= j < heaps@.len() implies heaps@[j] % 2 == 0 by {
                        assert(all.contains(heaps@[j] as u64));
                        assert(taken.contains(heaps@[j] as u64));
                    }
                }
                return Winner::Second;
            },
            Some(x) => {
                if x % 2 == 1 {
                    proof {
                        broadcast use vstd::multiset::group_multiset_axioms;
                        assert(all.contains(x));
                        let j = choose|j: int| 0 <= j < heaps@.len() && heaps@[j] as u64 == x;
                        assert(heaps@[j] % 2 == 1);
                    }
                    return Winner::First;
                }
                proof {
                    let t0 = taken;
                    taken = taken.insert(x);
                    assert forall|y: u64| #[trigger] taken.contains(y) implies y % 2 == 0 by {
                        if y != x {
                            assert(taken.count(y) == t0.count(y));
                            assert(t0.contains(y));
                        }
                    }
                }
            },
        }
    }
}

} // verus!
