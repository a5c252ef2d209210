//! A binary max-heap of `u64` keys stored in a `Vec`: the parent of slot `i`
//! is slot `(i - 1) / 2`, and every parent key is at least its children's.
//! Its contents are modelled as a multiset; `pop` removes a largest key.

use vstd::prelude::*;
use vstd::multiset::Multiset;

verus! {

broadcast use vstd::seq_lib::group_to_multiset_ensures;

/// The slot above slot `i`.
pub open spec fn up(i: int) -> int {
    (i - 1) / 2
}

/// Every key of `s` other than the first is at most the key above it.
pub open spec fn heap_ordered(s: Seq<u64>) -> bool {
    forall|i: int| 0 < i < s.len() ==> s[up(i)] >= #[trigger] s[i]
}

/// Keys at slots hanging below `k0` (their parent slot at least `k0`) are
/// ordered against their parents, except below the slot `hole`.
pub open spec fn ordered_below(s: Seq<u64>, k0: int, hole: int) -> bool {
    forall|i: int| 0 < i < s.len() && up(i) >= k0 && up(i) != hole ==> s[up(i)] >= #[trigger] s[i]
}

/// The first key of a heap-ordered sequence is its largest.
pub proof fn lemma_top_is_max(s: Seq<u64>, i: int)
    requires
        heap_ordered(s),
        0 <= i < s.len(),
    ensures
        s[0] >= s[i],
    decreases i,
{
    if i > 0 {
        lemma_top_is_max(s, up(i));
    }
}

/// Exchanging two keys keeps the multiset of keys.
pub proof fn lemma_swap_multiset(s: Seq<u64>, i: int, j: int)
    requires
        0 <= i < s.len(),
        0 <= j < s.len(),
    ensures
        s.update(i, s[j]).update(j, s[i]).to_multiset() =~= s.to_multiset(),
{
    broadcast use vstd::multiset::group_multiset_axioms;
    let t = s.update(i, s[j]);
    assert(t.to_multiset() =~= s.to_multiset().insert(s[j]).remove(s[i]));
    assert(t[j] == if i == j { s[i] } else { s[j] });
    assert(t.update(j, s[i]).to_multiset() =~= t.to_multiset().insert(s[i]).remove(t[j]));
}

/// One step of sifting down: exchanging the key at `k` with its larger child
/// `c` moves the disorder from below `k` to below `c`.
proof fn lemma_sift_down_step(s: Seq<u64>, k0: int, k: int, c: int)
    requires
        0 <= k0 <= k < c < s.len(),
        up(c) == k,
        s[c] > s[k],
        forall|d: int| 0 <= d < s.len() && up(d) == k ==> s[c] >= #[trigger] s[d],
        ordered_below(s, k0, k),
        k > k0 ==> forall|d: int| 0 <= d < s.len() && up(d) == k ==> s[up(k)] >= #[trigger] s[d],
    ensures ({
        let t = s.update(k, s[c]).update(c, s[k]);
        &&& ordered_below(t, k0, c)
        &&& forall|d: int| 0 <= d < t.len() && up(d) == c ==> t[up(c)] >= #[trigger] t[d]
    }),
{
    let t = s.update(k, s[c]).update(c, s[k]);
    assert forall|i: int| 0 < i < t.len() && up(i) >= k0 && up(i) != c implies t[up(i)] >= #[trigger] t[i] by {
        if up(i) == k {
            assert(s[c] >= s[i]);
        } else if i == k {
            assert(s[up(k)] >= s[c]);
        } else {
            assert(s[up(i)] >= s[i]);
        }
    }
    assert forall|d: int| 0 <= d < t.len() && up(d) == c implies t[up(c)] >= #[trigger] t[d] by {
        assert(s[up(d)] >= s[d]);
    }
}

/// A priority queue that always hands out its largest key.
pub struct MaxHeap {
    data: Vec<u64>,
}

impl View for MaxHeap {
    type V = Multiset<u64>;

    closed spec fn view(&self) -> Multiset<u64> {
        self.data@.to_multiset()
    }
}

impl MaxHeap {
    /// The keys are laid out in heap order.
    pub closed spec fn wf(&self) -> bool {
        heap_ordered(self.data@)
    }

    /// An empty heap.
    pub fn new() -> (h: MaxHeap)
        ensures
            h.wf(),
            h@ =~= Multiset::empty(),
    {
        let h = MaxHeap { data: Vec::new() };
        assert(h.data@ =~= Seq::<u64>::empty());
        h
    }

    /// Arranges the keys of `v` into a heap, sifting down from the last
    /// parent slot to the first.
    pub fn from_vec(v: Vec<u64>) -> (h: MaxHeap)
        ensures
            h.wf(),
            h@ =~= v@.to_multiset(),
    {
        let mut h = MaxHeap { data: v };
        let n = h.data.len();
        let mut k = n / 2;
        while k > 0
            invariant
                n == h.data.len(),
                k <= n / 2,
                ordered_below(h.data@, k as int, -1),
                h@ =~= v@.to_multiset(),
            decreases k,
        {
            h.sift_down(k - 1, k - 1);
            k -= 1;
        }
        h
    }

    /// The number of keys held.
    pub fn len(&self) -> (n: usize)
        ensures
            n == self@.len(),
    {
        self.data.len()
    }

    /// Moves the key at slot `k` down until it is at least its children,
    /// given that the slots below `k0` are ordered except below `k`.
    #[verifier::spinoff_prover]
    #[verifier::rlimit(30)]
    fn sift_down(&mut self, k0: usize, k: usize)
        requires
            k0 <= k < old(self).data.len(),
            ordered_below(old(self).data@, k0 as int, k as int),
            k > k0 ==> forall|c: int| 0 <= c < old(self).data@.len() && up(c) == k
                ==> old(self).data@[up(k as int)] >= #[trigger] old(self).data@[c],
        ensures
            ordered_below(final(self).data@, k0 as int, -1),
            final(self)@ =~= old(self)@,
            final(self).data@.len() == old(self).data@.len(),
            forall|i: int| 0 <= i < k0 ==> final(self).data@[i] == old(self).data@[i],
    {
        let n = self.data.len();
        let mut k = k;
        while k < n / 2
            invariant
                n == self.data.len(),
                n == old(self).data.len(),
                k0 <= k < n,
                ordered_below(self.data@, k0 as int, k as int),
                k > k0 ==> forall|c: int| 0 <= c < n && up(c) == k ==> self.data@[up(k as int)] >= #[trigger] self.data@[c],
                self@ =~= old(self)@,
                forall|i: int| 0 <= i < k0 ==> self.data@[i] == old(self).data@[i],
            decreases n - k,
        {
            let l = 2 * k + 1;
            let mut c = l;
            if l + 1 < n && self.data[l + 1] > self.data[l] {
                c = l + 1;
            }
            assert(up(c as int) == k);
            assert forall|d: int| 0 <= d < n && up(d) == k implies self.data@[c as int] >= #[trigger] self.data@[d] by {
                assert(d == l || d == l + 1);
            }
            if self.data[c] <= self.data[k] {
                assert forall|i: int| 0 < i < n && up(i) >= k0 && up(i) != -1 implies self.data@[up(i)] >= #[trigger] self.data@[i] by {
                    if up(i) == k {
                        assert(i == l || i == l + 1);
                    }
                }
                return;
            }
            let ghost s = self.data@;
            let vk = self.data[k];
            let vc = self.data[c];
            self.data.set(k, vc);
            self.data.set(c, vk);
            proof {
                lemma_swap_multiset(s, k as int, c as int);
                assert(self.data@ =~= s.update(k as int, s[c as int]).update(c as int, s[k as int]));
                lemma_sift_down_step(s, k0 as int, k as int, c as int);
            }
            k = c;
        }
        assert forall|i: int| 0 < i < n && up(i) >= k0 && up(i) != -1 implies self.data@[up(i)] >= #[trigger] self.data@[i] by {
            if up(i) == k {
                assert(false);
            }
        }
    }

    /// Adds a key.
    pub fn push(&mut self, x: u64)
        requires
            old(self).wf(),
        ensures
            final(self).wf(),
            final(self)@ =~= old(self)@.insert(x),
    {
        self.data.push(x);
        let mut k = self.data.len() - 1;
        while k > 0 && self.data[(k - 1) / 2] < self.data[k]
            invariant
                k < self.data.len(),
                forall|i: int| 0 < i < self.data@.len() && i != k ==> self.data@[up(i)] >= #[trigger] self.data@[i],
                k > 0 ==> forall|c: int| 0 <= c < self.data@.len() && up(c) == k ==> self.data@[up(k as int)] >= #[trigger] self.data@[c],
                self@ =~= old(self)@.insert(x),
            decreases k,
        {
            let p = (k - 1) / 2;
            let ghost s = self.data@;
            let vk = self.data[k];
            let vp = self.data[p];
            self.data.set(p, vk);
            self.data.set(k, vp);
            proof {
                lemma_swap_multiset(s, p as int, k as int);
                assert(self.data@ =~= s.update(p as int, s[k as int]).update(k as int, s[p as int]));
                let t = self.data@;
                assert forall|i: int| 0 < i < t.len() && i != p implies t[up(i)] >= #[trigger] t[i] by {
                    if i == k {
                    } else if up(i) == k {
                        assert(s[k as int] >= s[i]);
                    } else if up(i) == p {
                        assert(s[p as int] >= s[i]);
                    } else if i == p {
                    } else {
                        assert(s[up(i)] >= s[i]);
                    }
                }
                assert forall|c: int| 0 <= c < t.len() && up(c) == p && p > 0 implies t[up(p as int)] >= #[trigger] t[c] by {
                    assert(s[up(p as int)] >= s[p as int]);
                    if c != k {
                        assert(s[p as int] >= s[c]);
                    }
                }
            }
            k = p;
        }
        proof {
            assert forall|i: int| 0 < i < self.data@.len() implies self.data@[up(i)] >= #[trigger] self.data@[i] by {
                if i == k {
                }
            }
        }
    }

    /// Removes and returns a largest key, or `None` when the heap is empty.
    pub fn pop(&mut self) -> (r: Option<u64>)
        requires
            old(self).wf(),
        ensures
            final(self).wf(),
            match r {
                None => old(self)@.len() == 0 && final(self)@ == old(self)@,
                Some(x) => {
                    &&& old(self)@.contains(x)
                    &&& forall|y: u64| old(self)@.contains(y) ==> y <= x
                    &&& final(self)@ =~= old(self)@.remove(x)
                },
            },
    {
        if self.data.len() == 0 {
            return None;
        }
        let ghost s = self.data@;
        let top = self.data[0];
        proof {
            assert forall|y: u64| s.to_multiset().contains(y) implies y <= top by {
                let i = choose|i: int| 0 <= i < s.len() && s[i] == y;
                lemma_top_is_max(s, i);
            }
            assert(s.contains(top));
        }
        let last = self.data.pop().unwrap();
        proof {
            assert(s.remove(s.len() - 1) =~= self.data@);
        }
        if self.data.len() > 0 {
            let ghost t = self.data@;
            self.data.set(0, last);
            proof {
                assert(self.data@ =~= t.update(0, last));
                assert(self.data@.to_multiset() =~= t.to_multiset().insert(last).remove(t[0]));
                broadcast use vstd::multiset::group_multiset_axioms;
                assert(t[0] == top);
                assert(self.data@.to_multiset() =~= s.to_multiset().remove(top));
                assert forall|i: int| 0 < i < self.data@.len() && up(i) >= 0 && up(i) != 0 implies self.data@[up(i)] >= #[trigger] self.data@[i] by {
                    assert(s[up(i)] >= s[i]);
                }
            }
            self.sift_down(0, 0);
        } else {
            proof {
                broadcast use vstd::multiset::group_multiset_axioms;
                assert(s =~= Seq::<u64>::empty().push(top));
                assert(s.to_multiset() =~= Seq::<u64>::empty().push(top).to_multiset());
                assert(self.data@ =~= Seq::<u64>::empty());
            }
        }
        Some(top)
    }
}

} // verus!
