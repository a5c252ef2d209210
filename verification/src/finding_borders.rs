//! "Finding Borders": a border of a string is a prefix that is also a suffix,
//! but not the whole string. Borders nest: the longest border of the longest
//! border is the next border, and so on. Two algorithms list every border
//! length in increasing order.

pub mod kmp;
pub mod zalgo;

use vstd::prelude::*;

verus! {

/// `k` is a border length of the prefix `s[0..len]`: `0 <= k < len` and the
/// first `k` characters equal the last `k` characters of that prefix.
pub open spec fn is_border(s: Seq<u8>, len: int, k: int) -> bool {
    &&& 0 <= k < len
    &&& len <= s.len()
    &&& forall|j: int| 0 <= j < k ==> #[trigger] s[j] == s[len - k + j]
}

/// `r` lists, in strictly increasing order, exactly the nonzero border lengths
/// of the whole string `s`.
pub open spec fn is_border_list(s: Seq<u8>, r: Seq<u32>) -> bool {
    &&& forall|i: int, j: int| 0 <= i < j < r.len() ==> r[i] < r[j]
    &&& forall|i: int| 0 <= i < r.len() ==> 1 <= r[i] && is_border(s, s.len() as int, r[i] as int)
    &&& forall|k: int| 1 <= k && is_border(s, s.len() as int, k) ==> r.contains(k as u32)
}

/// A border of a border is a border: if `k` is a border of `s[0..len]` and
/// `t` is a border of `s[0..k]`, then `t` is a border of `s[0..len]`.
pub proof fn lemma_border_transitive(s: Seq<u8>, len: int, k: int, t: int)
    requires
        is_border(s, len, k),
        is_border(s, k, t),
    ensures
        is_border(s, len, t),
{
    assert forall|j: int| 0 <= j < t implies #[trigger] s[j] == s[len - t + j] by {
        assert(s[j] == s[k - t + j]);
        assert(s[k - t + j] == s[len - k + (k - t + j)]);
    }
}

/// Borders nest: a border `t` of `s[0..len]` that is shorter than another
/// border `k` of `s[0..len]` is a border of `s[0..k]`.
pub proof fn lemma_border_nested(s: Seq<u8>, len: int, k: int, t: int)
    requires
        is_border(s, len, k),
        is_border(s, len, t),
        t < k,
    ensures
        is_border(s, k, t),
{
    assert forall|j: int| 0 <= j < t implies #[trigger] s[j] == s[k - t + j] by {
        assert(s[j] == s[len - t + j]);
        assert(s[k - t + j] == s[len - k + (k - t + j)]);
    }
}

/// The list of border lengths is determined by the string: two lists that
/// both meet `is_border_list` are equal.
pub proof fn lemma_border_list_unique(s: Seq<u8>, r1: Seq<u32>, r2: Seq<u32>)
    requires
        s.len() <= u32::MAX,
        is_border_list(s, r1),
        is_border_list(s, r2),
    ensures
        r1 == r2,
    decreases r1.len() + r2.len(),
{
    if r1.len() == 0 || r2.len() == 0 {
        if r1.len() > 0 {
            assert(r2.contains(r1[0]));
        }
        if r2.len() > 0 {
            assert(r1.contains(r2[0]));
        }
        assert(r1 =~= r2);
    } else {
        let a = r1.last();
        let b = r2.last();
        assert(r2.contains(a));
        assert(r1.contains(b));
        let ia = choose|i: int| 0 <= i < r2.len() && r2[i] == a;
        let ib = choose|i: int| 0 <= i < r1.len() && r1[i] == b;
        assert(a <= b) by {
            if ia < r2.len() - 1 {
                assert(r2[ia] < r2[r2.len() - 1]);
            }
        }
        assert(b <= a) by {
            if ib < r1.len() - 1 {
                assert(r1[ib] < r1[r1.len() - 1]);
            }
        }
        let p1 = r1.drop_last();
        let p2 = r2.drop_last();
        assert forall|k: int| 1 <= k && is_border(s, s.len() as int, k) && k != a as int
            implies p1.contains(k as u32) by {
            assert(r1.contains(k as u32));
            let i = choose|i: int| 0 <= i < r1.len() && r1[i] == k as u32;
            assert(i != r1.len() - 1);
            assert(p1[i] == k as u32);
        }
        assert forall|k: int| 1 <= k && is_border(s, s.len() as int, k) && k != a as int
            implies p2.contains(k as u32) by {
            assert(r2.contains(k as u32));
            let i = choose|i: int| 0 <= i < r2.len() && r2[i] == k as u32;
            assert(i != r2.len() - 1);
            assert(p2[i] == k as u32);
        }
        lemma_prefix_lists_equal(s, p1, p2, a);
        assert(r1 =~= p1.push(a));
        assert(r2 =~= p2.push(b));
    }
}

/// Two increasing lists whose elements are exactly the borders below `a`
/// are equal.
proof fn lemma_prefix_lists_equal(s: Seq<u8>, p1: Seq<u32>, p2: Seq<u32>, a: u32)
    requires
        s.len() <= u32::MAX,
        forall|i: int, j: int| 0 <= i < j < p1.len() ==> p1[i] < p1[j],
        forall|i: int, j: int| 0 <= i < j < p2.len() ==> p2[i] < p2[j],
        forall|i: int| 0 <= i < p1.len() ==> 1 <= p1[i] < a && is_border(s, s.len() as int, p1[i] as int),
        forall|i: int| 0 <= i < p2.len() ==> 1 <= p2[i] < a && is_border(s, s.len() as int, p2[i] as int),
        forall|k: int| 1 <= k < a && is_border(s, s.len() as int, k) ==> p1.contains(k as u32),
        forall|k: int| 1 <= k < a && is_border(s, s.len() as int, k) ==> p2.contains(k as u32),
    ensures
        p1 == p2,
    decreases p1.len() + p2.len(),
{
    if p1.len() == 0 || p2.len() == 0 {
        if p1.len() > 0 {
            assert(p2.contains(p1[0]));
        }
        if p2.len() > 0 {
            assert(p1.contains(p2[0]));
        }
        assert(p1 =~= p2);
    } else {
        let x = p1.last();
        let y = p2.last();
        assert(p2.contains(x));
        assert(p1.contains(y));
        let ix = choose|i: int| 0 <= i < p2.len() && p2[i] == x;
        let iy = choose|i: int| 0 <= i < p1.len() && p1[i] == y;
        assert(x <= y) by {
            if ix < p2.len() - 1 {
                assert(p2[ix] < p2[p2.len() - 1]);
            }
        }
        assert(y <= x) by {
            if iy < p1.len() - 1 {
                assert(p1[iy] < p1[p1.len() - 1]);
            }
        }
        let q1 = p1.drop_last();
        let q2 = p2.drop_last();
        assert forall|k: int| 1 <= k < x && is_border(s, s.len() as int, k) implies q1.contains(k as u32) by {
            let i = choose|i: int| 0 <= i < p1.len() && p1[i] == k as u32;
            assert(i != p1.len() - 1);
            assert(q1[i] == k as u32);
        }
        assert forall|k: int| 1 <= k < x && is_border(s, s.len() as int, k) implies q2.contains(k as u32) by {
            let i = choose|i: int| 0 <= i < p2.len() && p2[i] == k as u32;
            assert(i != p2.len() - 1);
            assert(q2[i] == k as u32);
        }
        assert forall|i: int| 0 <= i < q1.len() implies q1[i] < x by {
            assert(p1[i] < p1[p1.len() - 1]);
        }
        assert forall|i: int| 0 <= i < q2.len() implies q2[i] < x by {
            assert(p2[i] < p2[p2.len() - 1]);
        }
        lemma_prefix_lists_equal(s, q1, q2, x);
        assert(p1 =~= q1.push(x));
        assert(p2 =~= q2.push(y));
    }
}

} // verus!
