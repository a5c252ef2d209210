//! KMP prefix (failure) function, then the chain of nested borders.

use vstd::prelude::*;
use crate::finding_borders::{is_border, is_border_list, lemma_border_transitive, lemma_border_nested};

verus! {

/// `v` is the longest border length of the prefix `s[0..len]`.
pub open spec fn is_longest_border(s: Seq<u8>, len: int, v: int) -> bool {
    &&& is_border(s, len, v)
    &&& forall|t: int| #[trigger] is_border(s, len, t) ==> t <= v
}

/// Extending a border: `t + 1` is a border of `s[0..i+1]` exactly when `t` is
/// a border of `s[0..i]` and the next characters agree.
proof fn lemma_border_extend(s: Seq<u8>, i: int, t: int)
    requires
        1 <= i < s.len(),
        0 <= t,
    ensures
        is_border(s, i + 1, t + 1) <==> (is_border(s, i, t) && s[t] == s[i]),
{
    if is_border(s, i + 1, t + 1) {
        assert(s[t] == s[i + 1 - (t + 1) + t]);
        assert forall|j: int| 0 <= j < t implies #[trigger] s[j] == s[i - t + j] by {
            assert(s[j] == s[i + 1 - (t + 1) + j]);
        }
    }
    if is_border(s, i, t) && s[t] == s[i] {
        assert forall|j: int| 0 <= j < t + 1 implies #[trigger] s[j] == s[i + 1 - (t + 1) + j] by {
            if j < t {
                assert(s[j] == s[i - t + j]);
            }
        }
    }
}

/// Builds the prefix function: entry `i` is the length of the longest border
/// of `s[0..=i]`.
pub fn prefix_function(s: &[u8]) -> (fail: Vec<u32>)
    requires
        s.len() <= u32::MAX,
    ensures
        fail.len() == s.len(),
        forall|i: int| 0 <= i < s.len() ==> is_longest_border(s@, i + 1, #[trigger] fail@[i] as int),
{
    let n = s.len();
    let mut fail: Vec<u32> = vec![0u32; n];
    if n > 0 {
        assert(is_longest_border(s@, 1, 0)) by {
            assert forall|t: int| #[trigger] is_border(s@, 1, t) implies t <= 0 by {}
        }
    }
    let mut i: usize = 1;
    while i < n
        invariant
            n == s.len(),
            n <= u32::MAX,
            fail.len() == n,
            1 <= i || n == 0,
            i <= n || n == 0,
            forall|j: int| 0 <= j < i && j < n ==> is_longest_border(s@, j + 1, #[trigger] fail@[j] as int),
        decreases n - i,
    {
        let mut k: u32 = fail[i - 1];
        proof {
            assert(is_longest_border(s@, i as int, fail@[i - 1] as int));
        }
        while k > 0 && s[i] != s[k as usize]
            invariant
                n == s.len(),
                1 <= i < n,
                fail.len() == n,
                forall|j: int| 0 <= j < i ==> is_longest_border(s@, j + 1, #[trigger] fail@[j] as int),
                is_border(s@, i as int, k as int),
                forall|t: int| k < t && #[trigger] is_border(s@, i as int, t) ==> s@[t] != s@[i as int],
            decreases k,
        {
            let nk = fail[k as usize - 1];
            proof {
                assert(is_longest_border(s@, k as int, nk as int));
                lemma_border_transitive(s@, i as int, k as int, nk as int);
                assert forall|t: int| nk < t && #[trigger] is_border(s@, i as int, t) implies s@[t] != s@[i as int] by {
                    if t < k {
                        lemma_border_nested(s@, i as int, k as int, t);
                        assert(is_border(s@, k as int, t));
                    }
                }
            }
            k = nk;
        }
        if s[i] == s[k as usize] {
            k += 1;
        }
        proof {
            let ii = i as int;
            if s@[ii] == s@[k as int - 1] && k > 0 && is_border(s@, ii, k as int - 1) {
            }
            assert(is_longest_border(s@, ii + 1, k as int)) by {
                if k > 0 && (k as int - 1 >= 0) && s@[ii] == s@[k as int - 1] && is_border(s@, ii, k as int - 1) {
                    lemma_border_extend(s@, ii, k as int - 1);
                } else {
                    assert(k == 0);
                    assert(is_border(s@, ii + 1, 0));
                }
                assert forall|t: int| #[trigger] is_border(s@, ii + 1, t) implies t <= k by {
                    if t > 0 {
                        lemma_border_extend(s@, ii, t - 1);
                    }
                }
            }
        }
        fail.set(i, k);
        i += 1;
    }
    fail
}

/// Lists every border length of `s`, in increasing order: the longest
/// border, then the longest border of that border, and so on, reversed.
pub fn border_lengths(s: &[u8]) -> (borders: Vec<u32>)
    requires
        s.len() <= u32::MAX,
    ensures
        is_border_list(s@, borders@),
{
    let n = s.len();
    if n == 0 {
        return Vec::new();
    }
    let fail = prefix_function(s);
    let ghost len = n as int;
    let mut desc: Vec<u32> = Vec::new();
    let mut k: u32 = fail[n - 1];
    proof {
        assert(is_longest_border(s@, len, fail@[n - 1] as int));
    }
    while k > 0
        invariant
            n == s.len(),
            len == n,
            n >= 1,
            fail.len() == n,
            forall|i: int| 0 <= i < n ==> is_longest_border(s@, i + 1, #[trigger] fail@[i] as int),
            is_border(s@, len, k as int),
            forall|i: int, j: int| 0 <= i < j < desc@.len() ==> desc@[i] > desc@[j],
            forall|i: int| 0 <= i < desc@.len() ==> k < desc@[i] && is_border(s@, len, desc@[i] as int),
            forall|t: int| k < t && #[trigger] is_border(s@, len, t) ==> desc@.contains(t as u32),
        decreases k,
    {
        let ghost old_desc = desc@;
        desc.push(k);
        let nk = fail[k as usize - 1];
        proof {
            assert(is_longest_border(s@, k as int, nk as int));
            lemma_border_transitive(s@, len, k as int, nk as int);
            assert forall|t: int| nk < t && #[trigger] is_border(s@, len, t) implies desc@.contains(t as u32) by {
                if t < k {
                    lemma_border_nested(s@, len, k as int, t);
                } else if t == k {
                    assert(desc@[desc@.len() - 1] == k);
                } else {
                    assert(old_desc.contains(t as u32));
                    let j = choose|j: int| 0 <= j < old_desc.len() && old_desc[j] == t as u32;
                    assert(desc@[j] == t as u32);
                }
            }
        }
        k = nk;
    }
    let mut borders: Vec<u32> = Vec::new();
    let mut j: usize = desc.len();
    while j > 0
        invariant
            j <= desc@.len(),
            borders@.len() == desc@.len() - j,
            forall|i: int| 0 <= i < borders@.len() ==> borders@[i] == desc@[desc@.len() - 1 - i],
        decreases j,
    {
        j -= 1;
        borders.push(desc[j]);
    }
    proof {
        assert forall|t: int| 1 <= t && is_border(s@, len, t) implies borders@.contains(t as u32) by {
            assert(desc@.contains(t as u32));
            let i = choose|i: int| 0 <= i < desc@.len() && desc@[i] == t as u32;
            assert(borders@[desc@.len() - 1 - i] == t as u32);
        }
    }
    borders
}

} // verus!
