//! "Subordinates": for every employee of a company tree, the number of
//! employees below them. Employee 1 is the director; `boss[i]` is the direct
//! boss of employee `i + 2`.

pub mod iterative;
pub mod recursive;

use vstd::prelude::*;
use vstd::set_lib::{lemma_int_range, lemma_len_subset, set_int_range};

verus! {

/// The direct boss of employee `v` (0 for the director and for 0 itself).
pub open spec fn boss_of(boss: Seq<u32>, v: int) -> int {
    if v >= 2 { boss[v - 2] as int } else { 0 }
}

/// The boss `k` levels above `v`.
pub open spec fn above(boss: Seq<u32>, v: int, k: nat) -> int
    decreases k,
{
    if k == 0 {
        v
    } else {
        boss_of(boss, above(boss, v, (k - 1) as nat))
    }
}

/// Employee `v` belongs to the director's company: its chain of bosses
/// reaches employee 1.
pub open spec fn in_company(boss: Seq<u32>, v: int) -> bool {
    exists|k: nat| #[trigger] above(boss, v, k) == 1
}

/// `v` is a boss of `u`, directly or through other bosses.
pub open spec fn reports_to(boss: Seq<u32>, u: int, v: int) -> bool {
    u != v && exists|k: nat| #[trigger] above(boss, u, k) == v
}

/// The employees below `v`.
pub open spec fn subordinates_of(boss: Seq<u32>, n: int, v: int) -> Set<int> {
    Set::new(|u: int| 1 <= u <= n && reports_to(boss, u, v))
}

/// The number of subordinates of `v`: 0 outside the director's company.
pub open spec fn subordinate_count(boss: Seq<u32>, n: int, v: int) -> int {
    if in_company(boss, v) { subordinates_of(boss, n, v).len() as int } else { 0 }
}

/// The boss list is within range: it covers employees `2..=n`, and each
/// boss is at most `n`.
pub open spec fn valid_bosses(boss: Seq<u32>, n: int) -> bool {
    &&& n <= u32::MAX
    &&& (n >= 1 ==> boss.len() >= n - 1)
    &&& forall|i: int| 0 <= i < n - 1 ==> boss[i] <= n
}

/// Going `i + j` levels up is going `i` levels, then `j`.
pub proof fn lemma_above_add(boss: Seq<u32>, v: int, i: nat, j: nat)
    ensures
        above(boss, v, i + j) == above(boss, above(boss, v, i), j),
    decreases j,
{
    if j > 0 {
        lemma_above_add(boss, v, i, (j - 1) as nat);
    }
}

/// Above 0 there is only 0.
pub proof fn lemma_above_zero(boss: Seq<u32>, k: nat)
    ensures
        above(boss, 0, k) == 0,
    decreases k,
{
    if k > 0 {
        lemma_above_zero(boss, (k - 1) as nat);
    }
}

/// Bosses of employees `1..=n` are in `0..=n`.
pub proof fn lemma_above_range(boss: Seq<u32>, n: int, v: int, k: nat)
    requires
        valid_bosses(boss, n),
        0 <= v <= n,
    ensures
        0 <= above(boss, v, k) <= n,
    decreases k,
{
    if k > 0 {
        lemma_above_range(boss, n, v, (k - 1) as nat);
    }
}

/// In the director's company the chain of bosses never repeats a nonzero
/// employee: it reaches 1, then 0 forever.
pub proof fn lemma_above_unique(boss: Seq<u32>, u: int, i: nat, j: nat)
    requires
        in_company(boss, u),
        above(boss, u, i) == above(boss, u, j),
        above(boss, u, i) != 0,
    ensures
        i == j,
{
    let kk = choose|k: nat| #[trigger] above(boss, u, k) == 1;
    if i != j {
        let (a, b) = if i < j { (i, j) } else { (j, i) };
        let d = (b - a) as nat;
        // The chain is periodic from a with period d.
        lemma_above_periodic(boss, u, a, d, (kk + 1) as nat);
        let t = (a + (kk + 1) * d) as nat;
        assert(t >= kk + 1) by (nonlinear_arith)
            requires d >= 1, a >= 0, kk >= 0, t == a + (kk + 1) * d;
        lemma_above_add(boss, u, kk, 1);
        assert(above(boss, u, (kk + 1) as nat) == 0);
        lemma_above_add(boss, u, (kk + 1) as nat, (t - (kk + 1)) as nat);
        lemma_above_zero(boss, (t - (kk + 1)) as nat);
    }
}

proof fn lemma_above_periodic(boss: Seq<u32>, u: int, a: nat, d: nat, t: nat)
    requires
        d >= 1,
        above(boss, u, a) == above(boss, u, a + d),
    ensures
        above(boss, u, (a + t * d) as nat) == above(boss, u, a),
    decreases t,
{
    if t > 0 {
        lemma_above_periodic(boss, u, a, d, (t - 1) as nat);
        let p = (a + (t - 1) * d) as nat;
        assert(a + t * d == p + d) by (nonlinear_arith)
            requires p == a + (t - 1) * d, t >= 1;
        lemma_above_add(boss, u, p, d);
        lemma_above_add(boss, u, a, d);
        assert(above(boss, u, (p + d) as nat) == above(boss, u, a));
    } else {
        assert(a + t * d == a) by (nonlinear_arith)
            requires t == 0;
    }
}

/// `u` is `c` or one of the employees below `c`.
pub open spec fn in_subtree(boss: Seq<u32>, u: int, c: int) -> bool {
    exists|k: nat| #[trigger] above(boss, u, k) == c
}

/// Everyone below a company member is in the company.
pub proof fn lemma_subtree_in_company(boss: Seq<u32>, u: int, c: int, k: nat)
    requires
        in_company(boss, c),
        above(boss, u, k) == c,
    ensures
        in_company(boss, u),
{
    let kk = choose|kk: nat| #[trigger] above(boss, c, kk) == 1;
    lemma_above_add(boss, u, k, kk);
    assert(above(boss, u, k + kk) == 1);
}

/// A nonzero boss of a company member is in the company.
pub proof fn lemma_ancestor_in_company(boss: Seq<u32>, u: int, k: nat)
    requires
        in_company(boss, u),
        above(boss, u, k) != 0,
    ensures
        in_company(boss, above(boss, u, k)),
{
    let kk = choose|kk: nat| #[trigger] above(boss, u, kk) == 1;
    if k > kk {
        lemma_above_add(boss, u, kk, 1);
        lemma_above_add(boss, u, (kk + 1) as nat, (k - kk - 1) as nat);
        lemma_above_zero(boss, (k - kk - 1) as nat);
    } else {
        lemma_above_add(boss, u, k, (kk - k) as nat);
        assert(above(boss, above(boss, u, k), (kk - k) as nat) == 1);
    }
}

/// 0 is not in the company, and the director is.
pub proof fn lemma_company_basics(boss: Seq<u32>)
    ensures
        !in_company(boss, 0),
        in_company(boss, 1),
{
    assert(above(boss, 1, 0) == 1);
    if in_company(boss, 0) {
        let k = choose|k: nat| #[trigger] above(boss, 0, k) == 1;
        lemma_above_zero(boss, k);
    }
}

/// Two employees with the same direct boss that both lie on the chain above
/// a company member are the same employee.
pub proof fn lemma_one_branch(boss: Seq<u32>, u: int, k1: nat, k2: nat)
    requires
        in_company(boss, u),
        boss_of(boss, above(boss, u, k1)) == boss_of(boss, above(boss, u, k2)),
        boss_of(boss, above(boss, u, k1)) != 0,
    ensures
        k1 == k2,
{
    assert(above(boss, u, k1 + 1) == boss_of(boss, above(boss, u, k1)));
    assert(above(boss, u, k2 + 1) == boss_of(boss, above(boss, u, k2)));
    lemma_above_unique(boss, u, k1 + 1, k2 + 1);
}

/// A company member is not below itself.
pub proof fn lemma_no_cycle(boss: Seq<u32>, u: int, k: nat)
    requires
        in_company(boss, u),
        above(boss, u, k) == u,
        u != 0,
    ensures
        k == 0,
{
    assert(above(boss, u, 0) == u);
    lemma_above_unique(boss, u, k, 0);
}

/// The set of employees below `v` lies within `1..=n`.
pub proof fn lemma_subordinates_finite(boss: Seq<u32>, n: int, v: int)
    requires
        n >= 0,
    ensures
        subordinates_of(boss, n, v).finite(),
        subordinates_of(boss, n, v).len() <= n,
{
    lemma_int_range(1, n + 1);
    lemma_len_subset(subordinates_of(boss, n, v), set_int_range(1, n + 1));
}

/// What the list of direct reports holds: the employees `w` in `2..=k` whose
/// boss is `b`, each once, in increasing order.
pub proof fn lemma_reports_upto(boss: Seq<u32>, b: int, k: int)
    requires
        k <= u32::MAX,
        k <= boss.len() + 1,
    ensures
        forall|i: int| 0 <= i < reports_upto(boss, b, k).len() ==> {
            let w = #[trigger] reports_upto(boss, b, k)[i] as int;
            2 <= w <= k && boss[w - 2] as int == b
        },
        forall|i: int, j: int|
            0 <= i < j < reports_upto(boss, b, k).len() ==> reports_upto(boss, b, k)[i]
                < reports_upto(boss, b, k)[j],
        forall|w: int|
            2 <= w <= k && #[trigger] boss_of(boss, w) == b ==> exists|i: int|
                0 <= i < reports_upto(boss, b, k).len() && #[trigger] reports_upto(boss, b, k)[i]
                    as int == w,
    decreases k,
{
    if k >= 2 {
        lemma_reports_upto(boss, b, k - 1);
        let prev = reports_upto(boss, b, k - 1);
        if boss[k - 2] as int == b {
            let s = prev.push(k as u32);
            assert(reports_upto(boss, b, k) == s);
            assert(s[prev.len() as int] as int == k);
            assert forall|w: int| 2 <= w <= k && #[trigger] boss_of(boss, w) == b implies exists|i: int|
                0 <= i < s.len() && #[trigger] s[i] as int == w by {
                if w < k {
                    let i = choose|i: int| 0 <= i < prev.len() && #[trigger] prev[i] as int == w;
                    assert(s[i] == prev[i]);
                }
            }
        } else {
            assert(reports_upto(boss, b, k) == prev);
            assert forall|w: int| 2 <= w <= k && #[trigger] boss_of(boss, w) == b implies exists|i: int|
                0 <= i < prev.len() && #[trigger] prev[i] as int == w by {
                assert(w < k);
            }
        }
    }
}

/// `x` is an employee of the director's company.
pub open spec fn member(boss: Seq<u32>, n: int, x: int) -> bool {
    1 <= x <= n && in_company(boss, x)
}

/// The employees of `1..=n` at or below `v`.
pub open spec fn whole_subtree(boss: Seq<u32>, n: int, v: int) -> Set<int> {
    Set::new(|u: int| 1 <= u <= n && in_subtree(boss, u, v))
}

/// Sets of employees of `1..=n` have at most `n` elements.
pub proof fn lemma_within_staff(s: Set<int>, n: int)
    requires
        n >= 0,
        forall|u: int| #[trigger] s.contains(u) ==> 1 <= u <= n,
    ensures
        s.finite(),
        s.len() <= n,
{
    lemma_int_range(1, n + 1);
    lemma_len_subset(s, set_int_range(1, n + 1));
}

/// Everything below `v`, with `v` itself, counts one more than its
/// subordinates.
pub proof fn lemma_whole_subtree_len(boss: Seq<u32>, n: int, v: int)
    requires
        valid_bosses(boss, n),
        member(boss, n, v),
    ensures
        whole_subtree(boss, n, v).finite(),
        whole_subtree(boss, n, v).len() == subordinates_of(boss, n, v).len() + 1,
{
    let w = whole_subtree(boss, n, v);
    let s = subordinates_of(boss, n, v);
    assert(above(boss, v, 0) == v);
    assert(w =~= s.insert(v));
    lemma_subordinates_finite(boss, n, v);
}

/// The employees `2..=n` in increasing order whose direct boss is `b`, up to
/// employee `k`.
pub open spec fn reports_upto(boss: Seq<u32>, b: int, k: int) -> Seq<u32>
    decreases k,
{
    if k < 2 {
        Seq::empty()
    } else if boss[k - 2] as int == b {
        reports_upto(boss, b, k - 1).push(k as u32)
    } else {
        reports_upto(boss, b, k - 1)
    }
}

/// Builds the company tree from the boss list: `parent[v]` is the direct boss
/// of employee `v` (0 for the director), and `children[v]` lists, in
/// increasing order, the employees who report directly to `v`. Index 0 is
/// unused padding in both.
pub fn build_tree(n: usize, boss: &[u32]) -> (tree: (Vec<u32>, Vec<Vec<u32>>))
    requires
        n <= u32::MAX,
        n < usize::MAX,
        n >= 1 ==> boss.len() >= n - 1,
        forall|i: int| 0 <= i < n - 1 ==> boss@[i] <= n,
    ensures
        tree.0.len() == n + 1,
        tree.1.len() == n + 1,
        tree.0@[0] == 0,
        n >= 1 ==> tree.0@[1] == 0,
        forall|v: int| 2 <= v <= n ==> tree.0@[v] == boss@[v - 2],
        forall|v: int| 0 <= v <= n ==> (#[trigger] tree.1@[v])@ == reports_upto(boss@, v, n as int),
{
    let mut parent: Vec<u32> = vec![0u32; n + 1];
    let mut children: Vec<Vec<u32>> = Vec::new();
    let mut v: usize = 0;
    while v <= n
        invariant
            n <= u32::MAX,
            n < usize::MAX,
            v <= n + 1,
            children@.len() == v,
            forall|w: int| 0 <= w < v ==> (#[trigger] children@[w])@ == Seq::<u32>::empty(),
        decreases n + 1 - v,
    {
        children.push(Vec::new());
        v += 1;
    }
    proof {
        assert forall|w: int| 0 <= w <= n implies (#[trigger] children@[w])@ == reports_upto(boss@, w, 1) by {}
    }
    let mut emp: usize = 2;
    while emp <= n
        invariant
            n <= u32::MAX,
            n < usize::MAX,
            2 <= emp,
            emp <= n + 1 || (n == 0 && emp == 2),
            n >= 1 ==> boss.len() >= n - 1,
            forall|i: int| 0 <= i < n - 1 ==> boss@[i] <= n,
            parent@.len() == n + 1,
            children@.len() == n + 1,
            parent@[0] == 0,
            n >= 1 ==> parent@[1] == 0,
            forall|w: int| 2 <= w < emp ==> parent@[w] == boss@[w - 2],
            forall|w: int| 0 <= w <= n ==> (#[trigger] children@[w])@ == reports_upto(boss@, w, emp - 1),
        decreases n + 1 - emp,
    {
        let b = boss[emp - 2];
        parent.set(emp, b);
        children[b as usize].push(emp as u32);
        emp += 1;
    }
    (parent, children)
}

} // verus!
