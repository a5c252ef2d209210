//! Z-algorithm, then a test of each suffix against the prefix.

use vstd::prelude::*;
use crate::finding_borders::{is_border, is_border_list};

verus! {

/// `v` is the length of the longest common prefix of `s` and `s[i..]`.
pub open spec fn is_z_value(s: Seq<u8>, i: int, v: int) -> bool {
    &&& 0 <= v <= s.len() - i
    &&& forall|j: int| 0 <= j < v ==> #[trigger] s[j] == s[i + j]
    &&& (i + v == s.len() || s[v] != s[i + v])
}

/// Computes the Z-array of `s`; entry 0 is left as 0.
pub fn z_array(s: &[u8]) -> (z: Vec<u32>)
    requires
        s.len() <= u32::MAX,
    ensures
        z.len() == s.len(),
        s.len() > 0 ==> z@[0] == 0,
        forall|i: int| 1 <= i < s.len() ==> is_z_value(s@, i, #[trigger] z@[i] as int),
{
    let n = s.len();
    let mut z: Vec<u32> = vec![0u32; n];
    let mut l: usize = 0;
    let mut r: usize = 0;
    let mut i: usize = 1;
    while i < n
        invariant
            n == s.len(),
            n <= u32::MAX,
            z.len() == n,
            1 <= i,
            i <= n || n == 0,
            n > 0 ==> z@[0] == 0,
            forall|j: int| 1 <= j < i && j < n ==> is_z_value(s@, j, #[trigger] z@[j] as int),
            l <= r <= n,
            r == 0 || (1 <= l && l < i),
            forall|t: int| 0 <= t < r - l ==> #[trigger] s@[t] == s@[l + t],
        decreases n - i,
    {
        let mut zi: usize = 0;
        if i < r {
            let mirror = z[i - l] as usize;
            zi = if mirror < r - i { mirror } else { r - i };
            proof {
                let m = (i - l) as int;
                assert(is_z_value(s@, m, z@[m] as int));
                assert forall|j: int| 0 <= j < zi implies #[trigger] s@[j] == s@[i + j] by {
                    assert(s@[j] == s@[m + j]);
                    assert(s@[m + j] == s@[l + (m + j)]);
                }
            }
        }
        while i + zi < n && s[zi] == s[i + zi]
            invariant
                n == s.len(),
                1 <= i < n,
                zi <= n - i,
                forall|j: int| 0 <= j < zi ==> #[trigger] s@[j] == s@[i + j],
            decreases n - i - zi,
        {
            zi += 1;
        }
        z.set(i, zi as u32);
        if i + zi > r {
            l = i;
            r = i + zi;
        }
        i += 1;
    }
    z
}

/// Lists every border length of `s`, in increasing order: length `L` is a
/// border exactly when the match at `n - L` runs to the end of the string.
pub fn border_lengths(s: &[u8]) -> (borders: Vec<u32>)
    requires
        s.len() <= u32::MAX,
    ensures
        is_border_list(s@, borders@),
{
    let n = s.len();
    if n == 0 {
        return Vec::new();
    }
    let z = z_array(s);
    let ghost len = n as int;
    let mut borders: Vec<u32> = Vec::new();
    let mut l: usize = 1;
    while l < n
        invariant
            n == s.len(),
            len == n,
            n <= u32::MAX,
            1 <= l <= n,
            z.len() == n,
            forall|i: int| 1 <= i < n ==> is_z_value(s@, i, #[trigger] z@[i] as int),
            forall|i: int, j: int| 0 <= i < j < borders@.len() ==> borders@[i] < borders@[j],
            forall|i: int| 0 <= i < borders@.len() ==> 1 <= borders@[i] < l && is_border(s@, len, borders@[i] as int),
            forall|k: int| 1 <= k < l && is_border(s@, len, k) ==> borders@.contains(k as u32),
        decreases n - l,
    {
        let ghost old_b = borders@;
        proof {
            assert(is_z_value(s@, len - l, z@[n - l] as int));
        }
        if z[n - l] as usize == l {
            borders.push(l as u32);
            proof {
                assert forall|j: int| 0 <= j < l implies #[trigger] s@[j] == s@[len - l + j] by {
                    assert(s@[j] == s@[(len - l) + j]);
                }
            }
        } else {
            proof {
                if is_border(s@, len, l as int) {
                    let v = z@[n - l] as int;
                    assert(v < l);
                    assert(s@[v] == s@[len - l + v]);
                }
            }
        }
        proof {
            assert forall|k: int| 1 <= k < l + 1 && is_border(s@, len, k) implies borders@.contains(k as u32) by {
                if k < l {
                    assert(old_b.contains(k as u32));
                    let j = choose|j: int| 0 <= j < old_b.len() && old_b[j] == k as u32;
                    assert(borders@[j] == k as u32);
                } else {
                    assert(borders@[borders@.len() - 1] == l as u32);
                }
            }
        }
        l += 1;
    }
    borders
}

} // verus!
