//! Subordinate counts without recursion. A depth-first walk with an explicit
//! stack lists the company so that every boss comes before the employees
//! below them; walking that list from the back, each employee records its
//! count and hands its subtree size up to its boss.

use vstd::prelude::*;
use vstd::set_lib::{lemma_int_range, lemma_len_subset, lemma_set_disjoint_lens, set_int_range};
use crate::subordinates::{
    above, boss_of, lemma_above_add, build_tree, in_company, in_subtree, lemma_above_range, lemma_ancestor_in_company,
    lemma_company_basics, lemma_no_cycle, lemma_one_branch, lemma_reports_upto,
    lemma_subordinates_finite, lemma_subtree_in_company, lemma_whole_subtree_len,
    lemma_within_staff, member, reports_upto, subordinate_count, subordinates_of, valid_bosses,
    whole_subtree,
};

verus! {

/// `x` occurs in `s`.
pub open spec fn occurs(s: Seq<u32>, x: int) -> bool {
    exists|j: int| 0 <= j < s.len() && s[j] as int == x
}

/// `u` or one of its bosses occurs in `s`.
pub open spec fn reached(boss: Seq<u32>, s: Seq<u32>, u: int) -> bool {
    exists|k: nat| #[trigger] occurs(s, above(boss, u, k))
}

/// Each listed employee other than the director comes after its boss.
pub open spec fn bosses_first(boss: Seq<u32>, order: Seq<u32>) -> bool {
    forall|j: int|
        0 <= j < order.len() && order[j] != 1 ==> exists|i: int|
            0 <= i < j && order[i] as int == boss_of(boss, #[trigger] order[j] as int)
}

/// The state of the walk: `order` holds the visited employees, `stack` those
/// waiting, and `pending` the direct reports of the last visited employee
/// that are not yet on the stack.
pub open spec fn walk_inv(
    boss: Seq<u32>,
    n: int,
    order: Seq<u32>,
    stack: Seq<u32>,
    pending: Seq<u32>,
) -> bool {
    &&& order.no_duplicates()
    &&& stack.no_duplicates()
    &&& forall|i: int| 0 <= i < stack.len() ==> !occurs(order, #[trigger] stack[i] as int)
    &&& forall|i: int|
        0 <= i < pending.len() ==> !occurs(order, #[trigger] pending[i] as int) && !occurs(
            stack,
            pending[i] as int,
        )
    &&& forall|i: int, j: int| 0 <= i < j < pending.len() ==> pending[i] < pending[j]
    &&& forall|i: int| 0 <= i < order.len() ==> member(boss, n, #[trigger] order[i] as int)
    &&& forall|i: int| 0 <= i < stack.len() ==> member(boss, n, #[trigger] stack[i] as int)
    &&& forall|i: int| 0 <= i < pending.len() ==> member(boss, n, #[trigger] pending[i] as int)
    &&& bosses_first(boss, order)
    &&& forall|j: int|
        0 <= j < stack.len() && stack[j] != 1 ==> occurs(
            order,
            boss_of(boss, #[trigger] stack[j] as int),
        )
    &&& forall|j: int|
        0 <= j < pending.len() ==> order.len() > 0 && boss_of(boss, #[trigger] pending[j] as int)
            == order.last() as int
    &&& forall|u: int|
        1 <= u <= n && #[trigger] in_company(boss, u) ==> occurs(order, u) || reached(
            boss,
            stack,
            u,
        ) || reached(boss, pending, u)
}

/// The finished walk: every company member listed once, bosses first.
pub open spec fn preorder(boss: Seq<u32>, n: int, order: Seq<u32>) -> bool {
    &&& order.no_duplicates()
    &&& forall|i: int| 0 <= i < order.len() ==> member(boss, n, #[trigger] order[i] as int)
    &&& forall|u: int| 1 <= u <= n && #[trigger] in_company(boss, u) ==> occurs(order, u)
    &&& bosses_first(boss, order)
}

/// A list of distinct employees of `1..=n` has at most `n` entries.
proof fn lemma_distinct_len(s: Seq<u32>, n: int)
    requires
        n >= 0,
        s.no_duplicates(),
        forall|i: int| 0 <= i < s.len() ==> 1 <= #[trigger] s[i] <= n,
    ensures
        s.len() <= n,
{
    let t = s.map_values(|x: u32| x as int);
    assert(t.no_duplicates()) by {
        assert forall|i: int, j: int| 0 <= i < t.len() && 0 <= j < t.len() && i != j implies t[i]
            != t[j] by {
            assert(s[i] != s[j]);
        }
    }
    assert(t.to_set().subset_of(set_int_range(1, n + 1))) by {
        assert forall|x: int| t.to_set().contains(x) implies set_int_range(1, n + 1).contains(x) by {
            let i = choose|i: int| 0 <= i < t.len() && t[i] == x;
            assert(1 <= s[i] <= n);
        }
    }
    lemma_int_range(1, n + 1);
    lemma_len_subset(t.to_set(), set_int_range(1, n + 1));
    t.unique_seq_to_set();
}

/// The walk starts with the director on the stack.
proof fn lemma_walk_start(boss: Seq<u32>, n: int)
    requires
        valid_bosses(boss, n),
        n >= 0,
    ensures
        n >= 1 ==> walk_inv(boss, n, Seq::empty(), seq![1u32], Seq::empty()),
        n == 0 ==> walk_inv(boss, n, Seq::empty(), Seq::empty(), Seq::empty()),
{
    lemma_company_basics(boss);
    if n >= 1 {
        let st = seq![1u32];
        assert forall|u: int| 1 <= u <= n && #[trigger] in_company(boss, u) implies reached(
            boss,
            st,
            u,
        ) by {
            let k = choose|k: nat| #[trigger] above(boss, u, k) == 1;
            assert(st[0] as int == above(boss, u, k));
            assert(occurs(st, above(boss, u, k)));
        }
    }
}

/// Popping `v` from the stack: `v` is visited and its direct reports become
/// pending.
proof fn lemma_walk_pop(boss: Seq<u32>, n: int, order: Seq<u32>, stack: Seq<u32>, cs: Seq<u32>)
    requires
        valid_bosses(boss, n),
        walk_inv(boss, n, order, stack, Seq::empty()),
        stack.len() > 0,
        cs == reports_upto(boss, stack.last() as int, n),
    ensures
        walk_inv(boss, n, order.push(stack.last()), stack.drop_last(), cs),
{
    lemma_reports_upto(boss, stack.last() as int, n);
    lemma_pop_order(boss, n, order, stack);
    lemma_pop_fresh(boss, n, order, stack, cs);
    lemma_pop_members(boss, n, order, stack, cs);
    lemma_pop_cover(boss, n, order, stack, cs);
}

/// After a pop, the visit order still has no repeats and lists bosses
/// first, and the stack stays apart from it.
proof fn lemma_pop_order(boss: Seq<u32>, n: int, order: Seq<u32>, stack: Seq<u32>)
    requires
        walk_inv(boss, n, order, stack, Seq::empty()),
        stack.len() > 0,
    ensures
        order.push(stack.last()).no_duplicates(),
        stack.drop_last().no_duplicates(),
        bosses_first(boss, order.push(stack.last())),
        forall|i: int|
            0 <= i < stack.len() - 1 ==> !occurs(
                order.push(stack.last()),
                #[trigger] stack.drop_last()[i] as int,
            ),
        forall|j: int|
            0 <= j < stack.len() - 1 && stack.drop_last()[j] != 1 ==> occurs(
                order.push(stack.last()),
                boss_of(boss, #[trigger] stack.drop_last()[j] as int),
            ),
{
    let v = stack.last();
    let last = stack.len() - 1;
    let o2 = order.push(v);
    let s2 = stack.drop_last();
    assert(!occurs(order, stack[last] as int));
    assert forall|j: int| 0 <= j < o2.len() && o2[j] != 1 implies exists|i: int|
        0 <= i < j && o2[i] as int == boss_of(boss, #[trigger] o2[j] as int) by {
        if j < order.len() {
            assert(o2[j] == order[j]);
            let i = choose|i: int|
                0 <= i < j && order[i] as int == boss_of(boss, #[trigger] order[j] as int);
            assert(o2[i] == order[i]);
        } else {
            assert(o2[j] == v);
            assert(occurs(order, boss_of(boss, stack[last] as int)));
            let i = choose|i: int|
                0 <= i < order.len() && order[i] as int == boss_of(boss, v as int);
            assert(o2[i] == order[i]);
        }
    }
    assert forall|i: int, j: int| 0 <= i < o2.len() && 0 <= j < o2.len() && i != j implies o2[i]
        != o2[j] by {
        if i < order.len() && j < order.len() {
        } else if i < order.len() {
            assert(o2[i] == order[i]);
            if order[i] == v {
                assert(occurs(order, v as int));
            }
        } else if j < order.len() {
            assert(o2[j] == order[j]);
            if order[j] == v {
                assert(occurs(order, v as int));
            }
        }
    }
    assert forall|i: int| 0 <= i < s2.len() implies !occurs(o2, #[trigger] s2[i] as int) by {
        assert(s2[i] == stack[i]);
        assert(stack[i] != stack[last]);
        if occurs(o2, s2[i] as int) {
            let j = choose|j: int| 0 <= j < o2.len() && o2[j] as int == s2[i] as int;
            if j < order.len() {
                assert(o2[j] == order[j]);
                assert(occurs(order, stack[i] as int));
            }
        }
    }
    assert forall|j: int| 0 <= j < s2.len() && s2[j] != 1 implies occurs(
        o2,
        boss_of(boss, #[trigger] s2[j] as int),
    ) by {
        assert(s2[j] == stack[j]);
        assert(occurs(order, boss_of(boss, stack[j] as int)));
        let i = choose|i: int|
            0 <= i < order.len() && order[i] as int == boss_of(boss, stack[j] as int);
        assert(o2[i] == order[i]);
    }
}

/// A direct report of the popped `v` was never seen: its boss `v` would have
/// been visited before.
proof fn lemma_pop_fresh(boss: Seq<u32>, n: int, order: Seq<u32>, stack: Seq<u32>, cs: Seq<u32>)
    requires
        walk_inv(boss, n, order, stack, Seq::empty()),
        stack.len() > 0,
        forall|i: int| 0 <= i < cs.len() ==> {
            let w = #[trigger] cs[i] as int;
            2 <= w <= n && boss[w - 2] as int == stack.last() as int
        },
    ensures
        forall|i: int|
            0 <= i < cs.len() ==> !occurs(order.push(stack.last()), #[trigger] cs[i] as int)
                && !occurs(stack.drop_last(), cs[i] as int),
        forall|j: int|
            0 <= j < cs.len() ==> boss_of(boss, #[trigger] cs[j] as int) == order.push(
                stack.last(),
            ).last() as int,
{
    let v = stack.last();
    let last = stack.len() - 1;
    let o2 = order.push(v);
    let s2 = stack.drop_last();
    assert(!occurs(order, stack[last] as int));
    assert forall|i: int| 0 <= i < cs.len() implies !occurs(o2, #[trigger] cs[i] as int) && !occurs(
        s2,
        cs[i] as int,
    ) by {
        let w = cs[i] as int;
        assert(boss_of(boss, w) == v as int);
        if occurs(o2, w) {
            let j = choose|j: int| 0 <= j < o2.len() && o2[j] as int == w;
            if j < order.len() {
                assert(o2[j] == order[j]);
                let i2 = choose|i2: int|
                    0 <= i2 < j && order[i2] as int == boss_of(boss, #[trigger] order[j] as int);
                assert(occurs(order, v as int));
            } else {
                assert(stack[last] != 1);
                assert(occurs(order, boss_of(boss, stack[last] as int)));
            }
        }
        if occurs(s2, w) {
            let j = choose|j: int| 0 <= j < s2.len() && s2[j] as int == w;
            assert(s2[j] == stack[j]);
            assert(occurs(order, boss_of(boss, stack[j] as int)));
        }
    }
}

/// Everyone in the state after a pop belongs to the company.
proof fn lemma_pop_members(boss: Seq<u32>, n: int, order: Seq<u32>, stack: Seq<u32>, cs: Seq<u32>)
    requires
        walk_inv(boss, n, order, stack, Seq::empty()),
        stack.len() > 0,
        forall|i: int| 0 <= i < cs.len() ==> {
            let w = #[trigger] cs[i] as int;
            2 <= w <= n && boss[w - 2] as int == stack.last() as int
        },
    ensures
        forall|i: int|
            0 <= i < order.len() + 1 ==> member(boss, n, #[trigger] order.push(stack.last())[i] as int),
        forall|i: int|
            0 <= i < stack.len() - 1 ==> member(boss, n, #[trigger] stack.drop_last()[i] as int),
        forall|i: int| 0 <= i < cs.len() ==> member(boss, n, #[trigger] cs[i] as int),
{
    let v = stack.last();
    let o2 = order.push(v);
    let s2 = stack.drop_last();
    assert(member(boss, n, stack[stack.len() - 1] as int));
    assert forall|i: int| 0 <= i < o2.len() implies member(boss, n, #[trigger] o2[i] as int) by {
        if i < order.len() {
            assert(o2[i] == order[i]);
        }
    }
    assert forall|i: int| 0 <= i < s2.len() implies member(boss, n, #[trigger] s2[i] as int) by {
        assert(s2[i] == stack[i]);
    }
    assert forall|i: int| 0 <= i < cs.len() implies member(boss, n, #[trigger] cs[i] as int) by {
        let w = cs[i] as int;
        assert(above(boss, w, 0) == w);
        assert(above(boss, w, 1) == v as int);
        lemma_subtree_in_company(boss, w, v as int, 1);
    }
}

/// After a pop, every company member is still visited, waiting, or below
/// someone waiting or pending.
#[verifier::spinoff_prover]
#[verifier::rlimit(40)]
proof fn lemma_pop_cover(boss: Seq<u32>, n: int, order: Seq<u32>, stack: Seq<u32>, cs: Seq<u32>)
    requires
        valid_bosses(boss, n),
        walk_inv(boss, n, order, stack, Seq::empty()),
        stack.len() > 0,
        forall|w: int|
            2 <= w <= n && #[trigger] boss_of(boss, w) == stack.last() as int ==> exists|i: int|
                0 <= i < cs.len() && #[trigger] cs[i] as int == w,
    ensures
        forall|u: int|
            1 <= u <= n && #[trigger] in_company(boss, u) ==> occurs(order.push(stack.last()), u)
                || reached(boss, stack.drop_last(), u) || reached(boss, cs, u),
{
    let v = stack.last();
    let last = stack.len() - 1;
    let o2 = order.push(v);
    let s2 = stack.drop_last();
    assert forall|u: int| 1 <= u <= n && #[trigger] in_company(boss, u) implies occurs(o2, u)
        || reached(boss, s2, u) || reached(boss, cs, u) by {
        if occurs(order, u) {
            let j = choose|j: int| 0 <= j < order.len() && order[j] as int == u;
            assert(o2[j] == order[j]);
        } else {
            assert(reached(boss, stack, u));
            let k = choose|k: nat| #[trigger] occurs(stack, above(boss, u, k));
            let j = choose|j: int| 0 <= j < stack.len() && stack[j] as int == above(boss, u, k);
            if j < last {
                assert(s2[j] == stack[j]);
                assert(occurs(s2, above(boss, u, k)));
            } else if k == 0 {
                assert(o2[order.len() as int] == v);
                assert(occurs(o2, u));
            } else {
                let w = above(boss, u, (k - 1) as nat);
                assert(boss_of(boss, w) == v as int);
                assert(member(boss, n, stack[last] as int));
                lemma_company_basics(boss);
                assert(w != 0);
                lemma_ancestor_in_company(boss, u, (k - 1) as nat);
                lemma_above_range(boss, n, u, (k - 1) as nat);
                assert(w != 1);
                let i = choose|i: int| 0 <= i < cs.len() && #[trigger] cs[i] as int == w;
                assert(occurs(cs, above(boss, u, (k - 1) as nat)));
            }
        }
    }
}

/// Pushing the first pending report onto the stack.
proof fn lemma_walk_push(boss: Seq<u32>, n: int, order: Seq<u32>, stack: Seq<u32>, pending: Seq<u32>)
    requires
        walk_inv(boss, n, order, stack, pending),
        pending.len() > 0,
    ensures
        walk_inv(boss, n, order, stack.push(pending[0]), pending.drop_first()),
{
    let w = pending[0];
    let s2 = stack.push(w);
    let p2 = pending.drop_first();
    assert(!occurs(stack, w as int));
    assert forall|i: int, j: int| 0 <= i < s2.len() && 0 <= j < s2.len() && i != j implies s2[i]
        != s2[j] by {
        if i < stack.len() && j < stack.len() {
        } else if i < stack.len() {
            assert(stack[i] as int != w as int);
        } else if j < stack.len() {
            assert(stack[j] as int != w as int);
        }
    }
    assert forall|i: int| 0 <= i < s2.len() implies !occurs(order, #[trigger] s2[i] as int) by {
        if i < stack.len() {
            assert(s2[i] == stack[i]);
        }
    }
    assert forall|i: int| 0 <= i < p2.len() implies !occurs(order, #[trigger] p2[i] as int)
        && !occurs(s2, p2[i] as int) by {
        assert(p2[i] == pending[i + 1]);
        assert(pending[0] < pending[i + 1]);
        if occurs(s2, p2[i] as int) {
            let j = choose|j: int| 0 <= j < s2.len() && s2[j] as int == p2[i] as int;
            if j < stack.len() {
                assert(s2[j] == stack[j]);
                assert(occurs(stack, pending[i + 1] as int));
            }
        }
    }
    assert forall|i: int| 0 <= i < s2.len() implies member(boss, n, #[trigger] s2[i] as int) by {
        if i < stack.len() {
            assert(s2[i] == stack[i]);
        }
    }
    assert forall|j: int| 0 <= j < s2.len() && s2[j] != 1 implies occurs(
        order,
        boss_of(boss, #[trigger] s2[j] as int),
    ) by {
        if j < stack.len() {
            assert(s2[j] == stack[j]);
        } else {
            assert(s2[j] == pending[0]);
            assert(order[order.len() - 1] as int == boss_of(boss, pending[0] as int));
        }
    }
    assert forall|j: int| 0 <= j < p2.len() implies order.len() > 0 && boss_of(
        boss,
        #[trigger] p2[j] as int,
    ) == order.last() as int by {
        assert(p2[j] == pending[j + 1]);
    }
    assert forall|i: int| 0 <= i < p2.len() implies member(boss, n, #[trigger] p2[i] as int) by {
        assert(p2[i] == pending[i + 1]);
    }
    assert forall|u: int| 1 <= u <= n && #[trigger] in_company(boss, u) implies occurs(order, u)
        || reached(boss, s2, u) || reached(boss, p2, u) by {
        if reached(boss, stack, u) {
            let k = choose|k: nat| #[trigger] occurs(stack, above(boss, u, k));
            let j = choose|j: int| 0 <= j < stack.len() && stack[j] as int == above(boss, u, k);
            assert(s2[j] == stack[j]);
            assert(occurs(s2, above(boss, u, k)));
        } else if reached(boss, pending, u) {
            let k = choose|k: nat| #[trigger] occurs(pending, above(boss, u, k));
            let j = choose|j: int| 0 <= j < pending.len() && pending[j] as int == above(boss, u, k);
            if j == 0 {
                assert(s2[stack.len() as int] == w);
                assert(occurs(s2, above(boss, u, k)));
            } else {
                assert(p2[j - 1] == pending[j]);
                assert(occurs(p2, above(boss, u, k)));
            }
        }
    }
}

/// When nothing is left to visit, the visit order lists the whole company.
proof fn lemma_walk_done(boss: Seq<u32>, n: int, order: Seq<u32>)
    requires
        walk_inv(boss, n, order, Seq::empty(), Seq::empty()),
    ensures
        preorder(boss, n, order),
{
}

/// The walk's two lists hold at most `n` employees together.
proof fn lemma_walk_len(boss: Seq<u32>, n: int, order: Seq<u32>, stack: Seq<u32>)
    requires
        n >= 0,
        walk_inv(boss, n, order, stack, Seq::empty()),
    ensures
        order.len() + stack.len() <= n,
{
    let t = order + stack;
    assert forall|i: int, j: int| 0 <= i < t.len() && 0 <= j < t.len() && i != j implies t[i]
        != t[j] by {
        if i < order.len() && j >= order.len() {
            assert(t[j] == stack[j - order.len()]);
            assert(!occurs(order, stack[j - order.len()] as int));
        } else if j < order.len() && i >= order.len() {
            assert(t[i] == stack[i - order.len()]);
            assert(!occurs(order, stack[i - order.len()] as int));
        } else if i >= order.len() {
            assert(t[i] == stack[i - order.len()]);
            assert(t[j] == stack[j - order.len()]);
        }
    }
    assert forall|i: int| 0 <= i < t.len() implies 1 <= #[trigger] t[i] <= n by {
        if i < order.len() {
            assert(member(boss, n, order[i] as int));
        } else {
            assert(member(boss, n, stack[i - order.len()] as int));
        }
    }
    lemma_distinct_len(t, n);
}

/// The entries of `order` from position `i` on.
pub open spec fn listed_from(order: Seq<u32>, i: int) -> Set<int> {
    Set::new(|x: int| exists|j: int| i <= j < order.len() && order[j] as int == x)
}

/// The employees of `1..=n` at or below a direct report of `x` that is in
/// `done`.
pub open spec fn gathered(boss: Seq<u32>, n: int, x: int, done: Set<int>) -> Set<int> {
    Set::new(
        |u: int|
            1 <= u <= n && exists|c: int|
                #![trigger done.contains(c), in_subtree(boss, u, c)]
                done.contains(c) && boss_of(boss, c) == x && in_subtree(boss, u, c),
    )
}

/// Walking back to position `idx - 1`, the employee `v` found there has all
/// its direct reports already done: what was gathered under `v` is exactly
/// the set of its subordinates.
proof fn lemma_gather_own(boss: Seq<u32>, n: int, order: Seq<u32>, idx: int)
    requires
        valid_bosses(boss, n),
        preorder(boss, n, order),
        0 < idx <= order.len(),
    ensures
        gathered(boss, n, order[idx - 1] as int, listed_from(order, idx)) == subordinates_of(
            boss,
            n,
            order[idx - 1] as int,
        ),
{
    let v = order[idx - 1] as int;
    let done = listed_from(order, idx);
    assert(member(boss, n, v));
    lemma_company_basics(boss);
    assert forall|u: int| #[trigger]
        gathered(boss, n, v, done).contains(u) implies subordinates_of(boss, n, v).contains(u) by {
        let c = choose|c: int|
            #![trigger done.contains(c), in_subtree(boss, u, c)]
            done.contains(c) && boss_of(boss, c) == v && in_subtree(boss, u, c);
        let k = choose|k: nat| #[trigger] above(boss, u, k) == c;
        let j = choose|j: int| idx <= j < order.len() && order[j] as int == c;
        assert(member(boss, n, order[j] as int));
        assert(above(boss, u, k + 1) == v);
        lemma_subtree_in_company(boss, u, c, k);
        if u == v {
            lemma_no_cycle(boss, u, k + 1);
        }
    }
    assert forall|u: int| #[trigger]
        subordinates_of(boss, n, v).contains(u) implies gathered(boss, n, v, done).contains(u) by {
        let k = choose|k: nat| #[trigger] above(boss, u, k) == v;
        assert(k >= 1);
        let km = (k - 1) as nat;
        let c = above(boss, u, km);
        assert(boss_of(boss, c) == v);
        assert(c != 0);
        lemma_subtree_in_company(boss, u, v, k);
        lemma_ancestor_in_company(boss, u, km);
        lemma_above_range(boss, n, u, km);
        assert(c != 1);
        let j = choose|j: int| 0 <= j < order.len() && order[j] as int == c;
        let i = choose|i: int|
            0 <= i < j && order[i] as int == boss_of(boss, #[trigger] order[j] as int);
        assert(order[i] == order[idx - 1]);
        assert(done.contains(c));
        assert(in_subtree(boss, u, c));
    }
    assert(gathered(boss, n, v, done) =~= subordinates_of(boss, n, v));
}

/// Marking `v` done changes nothing gathered under anyone but its boss.
proof fn lemma_gather_other(boss: Seq<u32>, n: int, done: Set<int>, v: int, x: int)
    requires
        x != boss_of(boss, v),
    ensures
        gathered(boss, n, x, done.insert(v)) == gathered(boss, n, x, done),
{
    assert forall|u: int| #[trigger]
        gathered(boss, n, x, done.insert(v)).contains(u) implies gathered(boss, n, x, done).contains(
        u,
    ) by {
        let c = choose|c: int|
            #![trigger done.insert(v).contains(c), in_subtree(boss, u, c)]
            done.insert(v).contains(c) && boss_of(boss, c) == x && in_subtree(boss, u, c);
        assert(done.contains(c));
    }
    assert forall|u: int| #[trigger]
        gathered(boss, n, x, done).contains(u) implies gathered(boss, n, x, done.insert(v)).contains(
        u,
    ) by {
        let c = choose|c: int|
            #![trigger done.contains(c), in_subtree(boss, u, c)]
            done.contains(c) && boss_of(boss, c) == x && in_subtree(boss, u, c);
        assert(done.insert(v).contains(c));
    }
    assert(gathered(boss, n, x, done.insert(v)) =~= gathered(boss, n, x, done));
}

/// Marking `v` done adds `v` and everyone below it to what is gathered under
/// its boss `p`, and none of them was there before.
proof fn lemma_gather_parent(boss: Seq<u32>, n: int, done: Set<int>, v: int)
    requires
        valid_bosses(boss, n),
        member(boss, n, v),
        !done.contains(v),
        boss_of(boss, v) != 0,
    ensures
        gathered(boss, n, boss_of(boss, v), done.insert(v)) == gathered(
            boss,
            n,
            boss_of(boss, v),
            done,
        ) + whole_subtree(boss, n, v),
        gathered(boss, n, boss_of(boss, v), done).disjoint(whole_subtree(boss, n, v)),
{
    let p = boss_of(boss, v);
    let g = gathered(boss, n, p, done);
    let g2 = gathered(boss, n, p, done.insert(v));
    let w = whole_subtree(boss, n, v);
    assert forall|u: int| #[trigger] g2.contains(u) implies (g + w).contains(u) by {
        let c = choose|c: int|
            #![trigger done.insert(v).contains(c), in_subtree(boss, u, c)]
            done.insert(v).contains(c) && boss_of(boss, c) == p && in_subtree(boss, u, c);
        if c != v {
            assert(done.contains(c));
            assert(g.contains(u));
        }
    }
    assert forall|u: int| #[trigger] (g + w).contains(u) implies g2.contains(u) by {
        if g.contains(u) {
            let c = choose|c: int|
                #![trigger done.contains(c), in_subtree(boss, u, c)]
                done.contains(c) && boss_of(boss, c) == p && in_subtree(boss, u, c);
            assert(done.insert(v).contains(c));
        } else {
            assert(done.insert(v).contains(v));
        }
    }
    assert(g2 =~= g + w);
    assert forall|u: int| !(#[trigger] g.contains(u) && w.contains(u)) by {
        if g.contains(u) && w.contains(u) {
            let c = choose|c: int|
                #![trigger done.contains(c), in_subtree(boss, u, c)]
                done.contains(c) && boss_of(boss, c) == p && in_subtree(boss, u, c);
            let k1 = choose|k: nat| #[trigger] above(boss, u, k) == c;
            let k2 = choose|k: nat| #[trigger] above(boss, u, k) == v;
            lemma_subtree_in_company(boss, u, v, k2);
            lemma_one_branch(boss, u, k1, k2);
        }
    }
}

/// One step of the backward walk over the visit order.
proof fn lemma_gather_step(boss: Seq<u32>, n: int, order: Seq<u32>, idx: int)
    requires
        valid_bosses(boss, n),
        preorder(boss, n, order),
        0 < idx <= order.len(),
    ensures
        ({
            let v = order[idx - 1] as int;
            let done = listed_from(order, idx);
            let p = boss_of(boss, v);
            &&& member(boss, n, v)
            &&& listed_from(order, idx - 1) == done.insert(v)
            &&& !done.contains(v)
            &&& gathered(boss, n, v, done).len() == subordinate_count(boss, n, v)
            &&& gathered(boss, n, v, done).len() < n
            &&& forall|x: int|
                x != p ==> #[trigger] gathered(boss, n, x, done.insert(v)) == gathered(
                    boss,
                    n,
                    x,
                    done,
                )
            &&& p != 0 ==> gathered(boss, n, p, done.insert(v)).len() == gathered(
                boss,
                n,
                p,
                done,
            ).len() + gathered(boss, n, v, done).len() + 1
            &&& p != 0 ==> gathered(boss, n, p, done.insert(v)).len() < n
        }),
{
    let v = order[idx - 1] as int;
    let done = listed_from(order, idx);
    let p = boss_of(boss, v);
    assert(member(boss, n, v));
    assert(listed_from(order, idx - 1) =~= done.insert(v));
    if done.contains(v) {
        let j = choose|j: int| idx <= j < order.len() && order[j] as int == v;
        assert(order[j] == order[idx - 1]);
    }
    lemma_gather_own(boss, n, order, idx);
    lemma_subordinates_finite(boss, n, v);
    assert(!subordinates_of(boss, n, v).contains(v));
    assert(subordinates_of(boss, n, v).subset_of(set_int_range(1, n + 1).remove(v)));
    lemma_int_range(1, n + 1);
    lemma_len_subset(subordinates_of(boss, n, v), set_int_range(1, n + 1).remove(v));
    assert forall|x: int| x != p implies #[trigger] gathered(boss, n, x, done.insert(v))
        == gathered(boss, n, x, done) by {
        lemma_gather_other(boss, n, done, v, x);
    }
    let g2 = gathered(boss, n, p, done.insert(v));
    lemma_within_staff(g2, n);
    if p != 0 {
        lemma_gather_parent(boss, n, done, v);
        lemma_whole_subtree_len(boss, n, v);
        lemma_within_staff(gathered(boss, n, p, done), n);
        lemma_set_disjoint_lens(gathered(boss, n, p, done), whole_subtree(boss, n, v));
        // The boss is not gathered under itself: the tree has no cycle.
        assert(above(boss, v, 0) == v);
        assert(above(boss, v, 1) == p);
        lemma_ancestor_in_company(boss, v, 1);
        if g2.contains(p) {
            let c = choose|c: int| #![trigger done.insert(v).contains(c), in_subtree(boss, p, c)]
                done.insert(v).contains(c) && boss_of(boss, c) == p && in_subtree(boss, p, c);
            let k = choose|k: nat| #[trigger] above(boss, p, k) == c;
            lemma_above_add(boss, p, k, 1);
            lemma_no_cycle(boss, p, k + 1);
        }
        assert(g2.subset_of(set_int_range(1, n + 1).remove(p)));
        lemma_len_subset(g2, set_int_range(1, n + 1).remove(p));
    }
}

/// Counts the subordinates of every employee: `counts[v]` is the number of
/// employees below `v` (index 0 is unused and holds 0). The company is walked
/// depth first with an explicit stack, so the depth of the tree costs no
/// call stack.
pub fn count_subordinates(n: usize, boss: &[u32]) -> (counts: Vec<u32>)
    requires
        valid_bosses(boss@, n as int),
        n < usize::MAX,
    ensures
        counts.len() == n + 1,
        forall|v: int| 0 <= v <= n ==> #[trigger] counts@[v] == subordinate_count(boss@, n as int, v),
{
    let (parent, children) = build_tree(n, boss);

    // Pass 1: a depth-first walk that lists every boss before its reports.
    let mut order: Vec<u32> = Vec::new();
    let mut stack: Vec<u32> = Vec::new();
    if n >= 1 {
        stack.push(1);
    }
    proof {
        lemma_walk_start(boss@, n as int);
        assert(order@ == Seq::<u32>::empty());
    }
    while stack.len() > 0
        invariant
            valid_bosses(boss@, n as int),
            children.len() == n + 1,
            forall|v: int| 0 <= v <= n ==> (#[trigger] children@[v])@ == reports_upto(boss@, v, n as int),
            walk_inv(boss@, n as int, order@, stack@, Seq::empty()),
        decreases n - order.len(),
    {
        proof {
            lemma_walk_len(boss@, n as int, order@, stack@);
        }
        let ghost old_order = order@;
        let ghost old_stack = stack@;
        let v = stack.pop().unwrap();
        order.push(v);
        proof {
            assert(member(boss@, n as int, old_stack[old_stack.len() - 1] as int));
        }
        let cs = &children[v as usize];
        proof {
            lemma_walk_pop(boss@, n as int, old_order, old_stack, cs@);
            assert(cs@.subrange(0, cs@.len() as int) == cs@);
        }
        let mut j: usize = 0;
        while j < cs.len()
            invariant
                j <= cs.len(),
                walk_inv(boss@, n as int, order@, stack@, cs@.subrange(j as int, cs@.len() as int)),
            decreases cs.len() - j,
        {
            proof {
                let pend = cs@.subrange(j as int, cs@.len() as int);
                lemma_walk_push(boss@, n as int, order@, stack@, pend);
                assert(pend.drop_first() == cs@.subrange(j as int + 1, cs@.len() as int));
            }
            stack.push(cs[j]);
            j += 1;
        }
        proof {
            assert(cs@.subrange(j as int, cs@.len() as int) == Seq::<u32>::empty());
        }
    }
    proof {
        assert(stack@ == Seq::<u32>::empty());
        lemma_walk_done(boss@, n as int, order@);
    }

    // Pass 2: from the back of the order, each employee records its count and
    // hands its subtree size to its boss.
    let mut size: Vec<u32> = vec![1u32; n + 1];
    let mut counts: Vec<u32> = vec![0u32; n + 1];
    let mut idx: usize = order.len();
    proof {
        assert(listed_from(order@, idx as int) =~= Set::<int>::empty());
        assert forall|x: int| 1 <= x <= n implies size@[x] == 1 + gathered(
            boss@,
            n as int,
            x,
            listed_from(order@, idx as int),
        ).len() by {
            assert(gathered(boss@, n as int, x, listed_from(order@, idx as int)) =~= Set::<
                int,
            >::empty());
        }
    }
    while idx > 0
        invariant
            valid_bosses(boss@, n as int),
            preorder(boss@, n as int, order@),
            idx <= order.len(),
            parent.len() == n + 1,
            parent@[0] == 0,
            n >= 1 ==> parent@[1] == 0,
            forall|w: int| 2 <= w <= n ==> parent@[w] == boss@[w - 2],
            size.len() == n + 1,
            counts.len() == n + 1,
            forall|x: int|
                1 <= x <= n ==> #[trigger] size@[x] == 1 + gathered(
                    boss@,
                    n as int,
                    x,
                    listed_from(order@, idx as int),
                ).len(),
            forall|x: int|
                0 <= x <= n ==> #[trigger] counts@[x] == (if listed_from(order@, idx as int).contains(
                    x,
                ) {
                    subordinate_count(boss@, n as int, x)
                } else {
                    0
                }),
        decreases idx,
    {
        proof {
            lemma_gather_step(boss@, n as int, order@, idx as int);
        }
        idx -= 1;
        let v = order[idx];
        let ghost done = listed_from(order@, idx as int + 1);
        counts.set(v as usize, size[v as usize] - 1);
        let p = parent[v as usize];
        proof {
            assert(p as int == boss_of(boss@, v as int));
        }
        if p != 0 {
            let sv = size[v as usize];
            let sp = size[p as usize];
            size.set(p as usize, sp + sv);
        }
        proof {
            assert forall|x: int| 1 <= x <= n implies #[trigger] size@[x] == 1 + gathered(
                boss@,
                n as int,
                x,
                listed_from(order@, idx as int),
            ).len() by {
                if x != p as int {
                    assert(gathered(boss@, n as int, x, done.insert(v as int)) == gathered(
                        boss@,
                        n as int,
                        x,
                        done,
                    ));
                }
            }
        }
    }
    proof {
        lemma_company_basics(boss@);
        assert forall|x: int| 0 <= x <= n implies #[trigger] counts@[x] == subordinate_count(
            boss@,
            n as int,
            x,
        ) by {
            if !listed_from(order@, 0).contains(x) && in_company(boss@, x) && x >= 1 {
                let j = choose|j: int| 0 <= j < order@.len() && order@[j] as int == x;
                assert(listed_from(order@, 0).contains(x));
            }
        }
    }
    counts
}

} // verus!
