//! Subordinate counts by a recursive depth-first walk: each employee sums the
//! subtree sizes of its direct reports. Every level of the tree takes one
//! frame of the call stack, so a caller expecting deep chains runs this on a
//! thread with a large stack.
//!
//! The walk itself only reads child lists, so it is stated for any tree of
//! child lists; the boss list enters only where `count_subordinates` builds
//! those lists.

use vstd::prelude::*;
use vstd::set_lib::{lemma_int_range, lemma_len_subset, lemma_set_disjoint_lens, set_int_range};
use crate::subordinates::{
    above, boss_of, build_tree, in_company, in_subtree, lemma_above_add, lemma_above_zero,
    lemma_company_basics, lemma_reports_upto, lemma_whole_subtree_len, member, reports_upto,
    subordinate_count, valid_bosses, whole_subtree,
};

verus! {

/// The child lists as sequences.
pub open spec fn lists_of(children: Seq<Vec<u32>>) -> Seq<Seq<u32>> {
    Seq::new(children.len(), |w: int| children[w]@)
}

/// `u` appears in the child list of `p`.
pub open spec fn lists(ch: Seq<Seq<u32>>, p: int, u: int) -> bool {
    0 <= p < ch.len() && exists|i: int| 0 <= i < ch[p].len() && #[trigger] ch[p][i] as int == u
}

/// `u` lies `k` steps down the child lists from `a`.
pub open spec fn reach(ch: Seq<Seq<u32>>, a: int, u: int, k: nat) -> bool
    decreases k,
{
    if k == 0 {
        u == a
    } else {
        exists|p: int| reach(ch, a, p, (k - 1) as nat) && #[trigger] lists(ch, p, u)
    }
}

/// `a` and everything below it in the child lists.
pub open spec fn subtree(ch: Seq<Seq<u32>>, a: int) -> Set<int> {
    Set::new(|u: int| exists|k: nat| #[trigger] reach(ch, a, u, k))
}

/// The child lists below `v` form a tree rooted at `v`: every listed child
/// is a valid index, `v` is nobody's child, and no one is listed twice.
pub open spec fn tree_at(ch: Seq<Seq<u32>>, v: int) -> bool {
    &&& 0 <= v < ch.len()
    &&& forall|p: int, i: int|
        subtree(ch, v).contains(p) && 0 <= i < ch[p].len() ==> (#[trigger] ch[p][i]) < ch.len()
            && ch[p][i] != v
    &&& forall|p: int, i: int, q: int, j: int|
        subtree(ch, v).contains(p) && subtree(ch, v).contains(q) && 0 <= i < ch[p].len() && 0 <= j
            < ch[q].len() && #[trigger] ch[p][i] == #[trigger] ch[q][j] ==> p == q && i == j
}

/// The members of the subtrees of the first `j` children of `v`.
pub open spec fn below(ch: Seq<Seq<u32>>, v: int, j: int) -> Set<int> {
    Set::new(|u: int| exists|i: int| 0 <= i < j && #[trigger] subtree(ch, ch[v][i] as int).contains(u))
}

/// Going down `k1` steps, then `k2`, is going down `k1 + k2`.
proof fn lemma_reach_compose(ch: Seq<Seq<u32>>, a: int, b: int, u: int, k1: nat, k2: nat)
    requires
        reach(ch, a, b, k1),
        reach(ch, b, u, k2),
    ensures
        reach(ch, a, u, k1 + k2),
    decreases k2,
{
    if k2 > 0 {
        let p = choose|p: int| reach(ch, b, p, (k2 - 1) as nat) && #[trigger] lists(ch, p, u);
        lemma_reach_compose(ch, a, b, p, k1, (k2 - 1) as nat);
        assert(reach(ch, a, p, (k1 + k2 - 1) as nat) && lists(ch, p, u));
    }
}

/// A child is one step down.
proof fn lemma_reach_child(ch: Seq<Seq<u32>>, v: int, c: int)
    requires
        lists(ch, v, c),
    ensures
        reach(ch, v, c, 1),
{
    assert(reach(ch, v, v, 0));
}

/// A path of at least one step starts with a child.
proof fn lemma_reach_first(ch: Seq<Seq<u32>>, a: int, u: int, k: nat) -> (c: int)
    requires
        reach(ch, a, u, k),
        k > 0,
    ensures
        lists(ch, a, c),
        reach(ch, c, u, (k - 1) as nat),
    decreases k,
{
    let p = choose|p: int| reach(ch, a, p, (k - 1) as nat) && #[trigger] lists(ch, p, u);
    if k == 1 {
        u
    } else {
        let c = lemma_reach_first(ch, a, p, (k - 1) as nat);
        assert(reach(ch, c, p, (k - 2) as nat) && lists(ch, p, u));
        c
    }
}

/// Everything in a tree is a valid index.
proof fn lemma_in_range(ch: Seq<Seq<u32>>, v: int, u: int)
    requires
        tree_at(ch, v),
        subtree(ch, v).contains(u),
    ensures
        0 <= u < ch.len(),
{
    let k = choose|k: nat| #[trigger] reach(ch, v, u, k);
    if k > 0 {
        let p = choose|p: int| reach(ch, v, p, (k - 1) as nat) && #[trigger] lists(ch, p, u);
        assert(subtree(ch, v).contains(p));
        let i = choose|i: int| 0 <= i < ch[p].len() && #[trigger] ch[p][i] as int == u;
        assert(ch[p][i] < ch.len());
    }
}

/// A tree is finite, within the indices of the lists.
proof fn lemma_subtree_finite(ch: Seq<Seq<u32>>, v: int)
    requires
        tree_at(ch, v),
    ensures
        subtree(ch, v).finite(),
        subtree(ch, v).len() <= ch.len(),
{
    assert forall|u: int| subtree(ch, v).contains(u) implies set_int_range(0, ch.len() as int).contains(u) by {
        lemma_in_range(ch, v, u);
    }
    lemma_int_range(0, ch.len() as int);
    lemma_len_subset(subtree(ch, v), set_int_range(0, ch.len() as int));
}

/// The root of a tree is not below itself.
proof fn lemma_no_return(ch: Seq<Seq<u32>>, v: int, k: nat)
    requires
        tree_at(ch, v),
        reach(ch, v, v, k),
    ensures
        k == 0,
{
    if k > 0 {
        let p = choose|p: int| reach(ch, v, p, (k - 1) as nat) && #[trigger] lists(ch, p, v);
        assert(subtree(ch, v).contains(p));
        let i = choose|i: int| 0 <= i < ch[p].len() && #[trigger] ch[p][i] as int == v;
        assert(ch[p][i] != v);
    }
}

/// Below a child of the root hangs a smaller tree, which does not hold the
/// root.
proof fn lemma_child_tree(ch: Seq<Seq<u32>>, v: int, c: int)
    requires
        tree_at(ch, v),
        lists(ch, v, c),
    ensures
        tree_at(ch, c),
        subtree(ch, c).subset_of(subtree(ch, v)),
        !subtree(ch, c).contains(v),
{
    lemma_reach_child(ch, v, c);
    assert forall|u: int| subtree(ch, c).contains(u) implies subtree(ch, v).contains(u) by {
        let k = choose|k: nat| #[trigger] reach(ch, c, u, k);
        lemma_reach_compose(ch, v, c, u, 1, k);
    }
    if subtree(ch, c).contains(v) {
        let k = choose|k: nat| #[trigger] reach(ch, c, v, k);
        lemma_reach_compose(ch, v, c, v, 1, k);
        lemma_no_return(ch, v, 1 + k);
    }
    assert(subtree(ch, v).contains(v)) by {
        assert(reach(ch, v, v, 0));
    }
    let i0 = choose|i: int| 0 <= i < ch[v].len() && #[trigger] ch[v][i] as int == c;
    assert(ch[v][i0] < ch.len());
    assert forall|p: int, i: int|
        subtree(ch, c).contains(p) && 0 <= i < ch[p].len() implies (#[trigger] ch[p][i]) < ch.len()
            && ch[p][i] != c by {
        assert(subtree(ch, v).contains(p));
        if ch[p][i] as int == c {
            assert(ch[p][i] == ch[v][i0]);
        }
    }
}

/// In a tree, the ancestors of a member lie on one line: whoever is
/// further above is above the other.
proof fn lemma_ancestors_ordered(
    ch: Seq<Seq<u32>>,
    v: int,
    x: int,
    y: int,
    u: int,
    k1: nat,
    k2: nat,
)
    requires
        tree_at(ch, v),
        subtree(ch, v).contains(x),
        subtree(ch, v).contains(y),
        reach(ch, x, u, k1),
        reach(ch, y, u, k2),
        k1 <= k2,
    ensures
        reach(ch, y, x, (k2 - k1) as nat),
    decreases k1,
{
    if k1 > 0 {
        let p1 = choose|p: int| reach(ch, x, p, (k1 - 1) as nat) && #[trigger] lists(ch, p, u);
        let p2 = choose|p: int| reach(ch, y, p, (k2 - 1) as nat) && #[trigger] lists(ch, p, u);
        let kx = choose|k: nat| #[trigger] reach(ch, v, x, k);
        let ky = choose|k: nat| #[trigger] reach(ch, v, y, k);
        lemma_reach_compose(ch, v, x, p1, kx, (k1 - 1) as nat);
        lemma_reach_compose(ch, v, y, p2, ky, (k2 - 1) as nat);
        assert(subtree(ch, v).contains(p1));
        assert(subtree(ch, v).contains(p2));
        let i1 = choose|i: int| 0 <= i < ch[p1].len() && #[trigger] ch[p1][i] as int == u;
        let i2 = choose|i: int| 0 <= i < ch[p2].len() && #[trigger] ch[p2][i] as int == u;
        assert(ch[p1][i1] == ch[p2][i2]);
        lemma_ancestors_ordered(ch, v, x, y, p1, (k1 - 1) as nat, (k2 - 1) as nat);
    }
}

/// A child of the root is not below another child of the root.
proof fn lemma_not_below_sibling(ch: Seq<Seq<u32>>, v: int, i: int, j: int, d: nat)
    requires
        tree_at(ch, v),
        0 <= i < ch[v].len(),
        0 <= j < ch[v].len(),
        i != j,
    ensures
        !reach(ch, ch[v][j] as int, ch[v][i] as int, d),
{
    let ci = ch[v][i] as int;
    let cj = ch[v][j] as int;
    assert(subtree(ch, v).contains(v)) by {
        assert(reach(ch, v, v, 0));
    }
    if reach(ch, cj, ci, d) {
        if d == 0 {
            assert(ch[v][i] == ch[v][j]);
        } else {
            assert(lists(ch, v, cj));
            lemma_child_tree(ch, v, cj);
            let p = choose|p: int| reach(ch, cj, p, (d - 1) as nat) && #[trigger] lists(ch, p, ci);
            assert(subtree(ch, cj).contains(p));
            let ip = choose|ip: int| 0 <= ip < ch[p].len() && #[trigger] ch[p][ip] as int == ci;
            assert(ch[p][ip] == ch[v][i]);
        }
    }
}

/// The subtrees of two different children of the root share no one.
proof fn lemma_children_disjoint(ch: Seq<Seq<u32>>, v: int, i: int, j: int, u: int)
    requires
        tree_at(ch, v),
        0 <= i < ch[v].len(),
        0 <= j < ch[v].len(),
        i != j,
    ensures
        !(subtree(ch, ch[v][i] as int).contains(u) && subtree(ch, ch[v][j] as int).contains(u)),
{
    let ci = ch[v][i] as int;
    let cj = ch[v][j] as int;
    if subtree(ch, ci).contains(u) && subtree(ch, cj).contains(u) {
        let k1 = choose|k: nat| #[trigger] reach(ch, ci, u, k);
        let k2 = choose|k: nat| #[trigger] reach(ch, cj, u, k);
        assert(lists(ch, v, ci));
        assert(lists(ch, v, cj));
        lemma_reach_child(ch, v, ci);
        lemma_reach_child(ch, v, cj);
        assert(subtree(ch, v).contains(ci));
        assert(subtree(ch, v).contains(cj));
        if k1 <= k2 {
            lemma_ancestors_ordered(ch, v, ci, cj, u, k1, k2);
            lemma_not_below_sibling(ch, v, i, j, (k2 - k1) as nat);
        } else {
            lemma_ancestors_ordered(ch, v, cj, ci, u, k2, k1);
            lemma_not_below_sibling(ch, v, j, i, (k1 - k2) as nat);
        }
    }
}

/// Adding the subtree of the next child of `v`, which shares no one with the
/// subtrees of the earlier children, and keeping below `v`.
proof fn lemma_below_next(ch: Seq<Seq<u32>>, v: int, j: int)
    requires
        tree_at(ch, v),
        0 <= j < ch[v].len(),
        below(ch, v, j).finite(),
    ensures
        below(ch, v, j + 1) == below(ch, v, j) + subtree(ch, ch[v][j] as int),
        below(ch, v, j).disjoint(subtree(ch, ch[v][j] as int)),
        below(ch, v, j + 1).finite(),
        below(ch, v, j + 1).len() == below(ch, v, j).len() + subtree(ch, ch[v][j] as int).len(),
        below(ch, v, j + 1).subset_of(subtree(ch, v).remove(v)),
{
    let c = ch[v][j] as int;
    let a = below(ch, v, j);
    let b = below(ch, v, j + 1);
    let w = subtree(ch, c);
    assert forall|u: int| #[trigger] b.contains(u) implies (a + w).contains(u) by {
        let i = choose|i: int| 0 <= i < j + 1 && #[trigger] subtree(ch, ch[v][i] as int).contains(u);
        if i < j {
            assert(a.contains(u));
        }
    }
    assert forall|u: int| #[trigger] (a + w).contains(u) implies b.contains(u) by {
        if a.contains(u) {
            let i = choose|i: int| 0 <= i < j && #[trigger] subtree(ch, ch[v][i] as int).contains(u);
            assert(subtree(ch, ch[v][i] as int).contains(u));
        } else {
            assert(subtree(ch, ch[v][j] as int).contains(u));
        }
    }
    assert(b =~= a + w);
    assert forall|u: int| !(#[trigger] a.contains(u) && w.contains(u)) by {
        if a.contains(u) && w.contains(u) {
            let i = choose|i: int| 0 <= i < j && #[trigger] subtree(ch, ch[v][i] as int).contains(u);
            lemma_children_disjoint(ch, v, i, j, u);
        }
    }
    assert(lists(ch, v, c));
    lemma_child_tree(ch, v, c);
    lemma_subtree_finite(ch, c);
    lemma_set_disjoint_lens(a, w);
    assert forall|u: int| #[trigger] b.contains(u) implies subtree(ch, v).remove(v).contains(u) by {
        let i = choose|i: int| 0 <= i < j + 1 && #[trigger] subtree(ch, ch[v][i] as int).contains(u);
        assert(lists(ch, v, ch[v][i] as int));
        lemma_child_tree(ch, v, ch[v][i] as int);
    }
}

/// The subtrees of all children of `v`, with `v` itself, make up the tree
/// at `v`.
proof fn lemma_below_all(ch: Seq<Seq<u32>>, v: int)
    requires
        tree_at(ch, v),
    ensures
        subtree(ch, v) == below(ch, v, ch[v].len() as int).insert(v),
        !below(ch, v, ch[v].len() as int).contains(v),
{
    let b = below(ch, v, ch[v].len() as int);
    assert forall|u: int| #[trigger] subtree(ch, v).contains(u) implies b.insert(v).contains(u) by {
        let k = choose|k: nat| #[trigger] reach(ch, v, u, k);
        if k > 0 {
            let c = lemma_reach_first(ch, v, u, k);
            let i = choose|i: int| 0 <= i < ch[v].len() && #[trigger] ch[v][i] as int == c;
            assert(subtree(ch, ch[v][i] as int).contains(u));
        }
    }
    assert forall|u: int| #[trigger] b.insert(v).contains(u) implies subtree(ch, v).contains(u) by {
        if u == v {
            assert(reach(ch, v, v, 0));
        } else {
            let i = choose|i: int| 0 <= i < ch[v].len() && #[trigger] subtree(ch, ch[v][i] as int).contains(u);
            assert(lists(ch, v, ch[v][i] as int));
            lemma_child_tree(ch, v, ch[v][i] as int);
        }
    }
    assert(subtree(ch, v) =~= b.insert(v));
    if b.contains(v) {
        let i = choose|i: int| 0 <= i < ch[v].len() && #[trigger] subtree(ch, ch[v][i] as int).contains(v);
        assert(lists(ch, v, ch[v][i] as int));
        lemma_child_tree(ch, v, ch[v][i] as int);
    }
}

/// Visits the tree of child lists at `v`: records, for every member `u`,
/// the size of the tree at `u` less one, and returns the size of the tree
/// at `v`, `v` included. Counts outside the tree are left as they were.
fn dfs(v: usize, children: &Vec<Vec<u32>>, counts: &mut Vec<u32>) -> (size: u32)
    requires
        tree_at(lists_of(children@), v as int),
        subtree(lists_of(children@), v as int).len() <= u32::MAX,
        old(counts).len() >= children.len(),
    ensures
        final(counts).len() == old(counts).len(),
        size == subtree(lists_of(children@), v as int).len(),
        forall|u: int|
            0 <= u < old(counts).len() ==> #[trigger] final(counts)@[u] == if subtree(
                lists_of(children@),
                v as int,
            ).contains(u) {
                subtree(lists_of(children@), u).len() - 1
            } else {
                old(counts)@[u] as int
            },
    decreases subtree(lists_of(children@), v as int).len(),
{
    let ghost ch = lists_of(children@);
    let ghost start = counts@;
    let cs = &children[v];
    proof {
        assert(cs@ == ch[v as int]);
        lemma_subtree_finite(ch, v as int);
        lemma_below_all(ch, v as int);
        assert(below(ch, v as int, 0) =~= Set::<int>::empty());
    }
    let mut size: u32 = 1;
    let mut j: usize = 0;
    while j < cs.len()
        invariant
            ch == lists_of(children@),
            tree_at(ch, v as int),
            subtree(ch, v as int).finite(),
            subtree(ch, v as int).len() <= u32::MAX,
            cs@ == ch[v as int],
            j <= cs.len(),
            counts.len() == start.len(),
            counts.len() >= children.len(),
            below(ch, v as int, j as int).finite(),
            below(ch, v as int, j as int).subset_of(subtree(ch, v as int).remove(v as int)),
            size == 1 + below(ch, v as int, j as int).len(),
            forall|u: int|
                0 <= u < counts.len() ==> #[trigger] counts@[u] == if below(ch, v as int, j as int).contains(u) {
                    subtree(ch, u).len() - 1
                } else {
                    start[u] as int
                },
        decreases cs.len() - j,
    {
        let c = cs[j];
        proof {
            assert(ch[v as int][j as int] == c);
            assert(lists(ch, v as int, c as int));
            lemma_child_tree(ch, v as int, c as int);
            lemma_subtree_finite(ch, c as int);
            lemma_len_subset(subtree(ch, c as int), subtree(ch, v as int).remove(v as int));
            lemma_below_next(ch, v as int, j as int);
            lemma_len_subset(below(ch, v as int, j as int + 1), subtree(ch, v as int).remove(v as int));
            assert(subtree(ch, v as int).contains(v as int)) by {
                assert(reach(ch, v as int, v as int, 0));
            }
        }
        let s = dfs(c as usize, children, counts);
        proof {
            assert forall|u: int| 0 <= u < counts.len() implies #[trigger] counts@[u] == if below(
                ch,
                v as int,
                j as int + 1,
            ).contains(u) {
                subtree(ch, u).len() - 1
            } else {
                start[u] as int
            } by {}
        }
        size = size + s;
        j += 1;
    }
    proof {
        lemma_below_all(ch, v as int);
        assert(v < counts.len());
    }
    counts.set(v, size - 1);
    proof {
        assert forall|u: int| 0 <= u < counts.len() implies #[trigger] counts@[u] == if subtree(ch, v as int).contains(u) {
            subtree(ch, u).len() - 1
        } else {
            start[u] as int
        } by {}
    }
    size
}

/// Child `u` in the lists that `build_tree` makes: an employee of `2..=n`
/// whose direct boss is `p`.
proof fn lemma_lists_boss(boss: Seq<u32>, n: int, ch: Seq<Seq<u32>>, p: int, u: int)
    requires
        valid_bosses(boss, n),
        n >= 1,
        ch.len() == n + 1,
        forall|w: int| 0 <= w <= n ==> #[trigger] ch[w] == reports_upto(boss, w, n),
        0 <= p <= n,
    ensures
        lists(ch, p, u) <==> (2 <= u <= n && boss_of(boss, u) == p),
{
    lemma_reports_upto(boss, p, n);
    assert(ch[p] == reports_upto(boss, p, n));
    if 2 <= u <= n && boss_of(boss, u) == p {
        let i = choose|i: int| 0 <= i < reports_upto(boss, p, n).len() && #[trigger] reports_upto(boss, p, n)[i] as int == u;
        assert(ch[p][i] as int == u);
    }
}

/// Below employee `a` in those lists lie exactly the employees whose chain
/// of bosses reaches `a`, at the same number of steps.
proof fn lemma_reach_boss(boss: Seq<u32>, n: int, ch: Seq<Seq<u32>>, a: int, u: int, k: nat)
    requires
        valid_bosses(boss, n),
        n >= 1,
        ch.len() == n + 1,
        forall|w: int| 0 <= w <= n ==> #[trigger] ch[w] == reports_upto(boss, w, n),
        1 <= a <= n,
    ensures
        reach(ch, a, u, k) <==> (1 <= u <= n && above(boss, u, k) == a),
    decreases k,
{
    if k > 0 {
        assert(above(boss, u, 0) == u);
        lemma_above_add(boss, u, 1, (k - 1) as nat);
        if reach(ch, a, u, k) {
            let p = choose|p: int| reach(ch, a, p, (k - 1) as nat) && #[trigger] lists(ch, p, u);
            lemma_reach_boss(boss, n, ch, a, p, (k - 1) as nat);
            lemma_lists_boss(boss, n, ch, p, u);
        }
        if 1 <= u <= n && above(boss, u, k) == a {
            let p = boss_of(boss, u);
            if p == 0 {
                lemma_above_zero(boss, (k - 1) as nat);
            }
            lemma_reach_boss(boss, n, ch, a, p, (k - 1) as nat);
            lemma_lists_boss(boss, n, ch, p, u);
            assert(reach(ch, a, p, (k - 1) as nat) && lists(ch, p, u));
        }
    }
}

/// The tree of child lists at an employee is the set of employees at or
/// below them.
proof fn lemma_subtree_boss(boss: Seq<u32>, n: int, ch: Seq<Seq<u32>>, a: int)
    requires
        valid_bosses(boss, n),
        n >= 1,
        ch.len() == n + 1,
        forall|w: int| 0 <= w <= n ==> #[trigger] ch[w] == reports_upto(boss, w, n),
        1 <= a <= n,
    ensures
        subtree(ch, a) == whole_subtree(boss, n, a),
{
    assert forall|u: int| #[trigger] subtree(ch, a).contains(u) implies whole_subtree(boss, n, a).contains(u) by {
        let k = choose|k: nat| #[trigger] reach(ch, a, u, k);
        lemma_reach_boss(boss, n, ch, a, u, k);
    }
    assert forall|u: int| #[trigger] whole_subtree(boss, n, a).contains(u) implies subtree(ch, a).contains(u) by {
        let k = choose|k: nat| #[trigger] above(boss, u, k) == a;
        lemma_reach_boss(boss, n, ch, a, u, k);
    }
    assert(subtree(ch, a) =~= whole_subtree(boss, n, a));
}

/// The lists that `build_tree` makes form a tree at the director.
proof fn lemma_built_tree(boss: Seq<u32>, n: int, ch: Seq<Seq<u32>>)
    requires
        valid_bosses(boss, n),
        n >= 1,
        ch.len() == n + 1,
        forall|w: int| 0 <= w <= n ==> #[trigger] ch[w] == reports_upto(boss, w, n),
    ensures
        tree_at(ch, 1),
{
    assert forall|p: int, i: int|
        subtree(ch, 1).contains(p) && 0 <= i < ch[p].len() implies (#[trigger] ch[p][i]) < ch.len()
            && ch[p][i] != 1 by {
        lemma_subtree_boss(boss, n, ch, 1);
        lemma_reports_upto(boss, p, n);
        assert(ch[p][i] == reports_upto(boss, p, n)[i]);
    }
    assert forall|p: int, i: int, q: int, j: int|
        subtree(ch, 1).contains(p) && subtree(ch, 1).contains(q) && 0 <= i < ch[p].len() && 0 <= j
            < ch[q].len() && #[trigger] ch[p][i] == #[trigger] ch[q][j] implies p == q && i == j by {
        lemma_subtree_boss(boss, n, ch, 1);
        lemma_reports_upto(boss, p, n);
        lemma_reports_upto(boss, q, n);
        assert(ch[p][i] == reports_upto(boss, p, n)[i]);
        assert(ch[q][j] == reports_upto(boss, q, n)[j]);
        if p == q && i != j {
            if i < j {
                assert(reports_upto(boss, p, n)[i] < reports_upto(boss, p, n)[j]);
            } else {
                assert(reports_upto(boss, p, n)[j] < reports_upto(boss, p, n)[i]);
            }
        }
    }
}

/// Counts the subordinates of every employee: `counts[v]` is the number of
/// employees below `v` (index 0 is unused and holds 0). The walk recurses
/// once per level of the tree.
pub fn count_subordinates(n: usize, boss: &[u32]) -> (counts: Vec<u32>)
    requires
        valid_bosses(boss@, n as int),
        n < usize::MAX,
    ensures
        counts.len() == n + 1,
        forall|v: int| 0 <= v <= n ==> #[trigger] counts@[v] == subordinate_count(boss@, n as int, v),
{
    let (_parent, children) = build_tree(n, boss);
    let mut counts: Vec<u32> = vec![0u32; n + 1];
    proof {
        lemma_company_basics(boss@);
    }
    if n >= 1 {
        let ghost ch = lists_of(children@);
        proof {
            assert forall|w: int| 0 <= w <= n implies #[trigger] ch[w] == reports_upto(boss@, w, n as int) by {
                assert(ch[w] == children@[w]@);
            }
            lemma_built_tree(boss@, n as int, ch);
            lemma_subtree_boss(boss@, n as int, ch, 1);
            assert(member(boss@, n as int, 1)) by {
                assert(above(boss@, 1, 0) == 1);
            }
            lemma_whole_subtree_len(boss@, n as int, 1);
            crate::subordinates::lemma_within_staff(whole_subtree(boss@, n as int, 1), n as int);
        }
        let _ = dfs(1, &children, &mut counts);
        proof {
            assert forall|v: int| 0 <= v <= n implies #[trigger] counts@[v] == subordinate_count(
                boss@,
                n as int,
                v,
            ) by {
                if subtree(ch, 1).contains(v) {
                    let k = choose|k: nat| #[trigger] above(boss@, v, k) == 1;
                    assert(in_company(boss@, v));
                    lemma_subtree_boss(boss@, n as int, ch, v);
                    lemma_whole_subtree_len(boss@, n as int, v);
                } else if in_company(boss@, v) && v >= 1 {
                    let k = choose|k: nat| #[trigger] above(boss@, v, k) == 1;
                    assert(in_subtree(boss@, v, 1));
                    assert(whole_subtree(boss@, n as int, 1).contains(v));
                }
            }
        }
    }
    counts
}

} // verus!
