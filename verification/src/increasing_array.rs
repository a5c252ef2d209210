//! "Increasing Array": each move adds 1 to one element; find the fewest moves
//! that make the array non-decreasing. Every element must rise to the largest
//! value before it, so the answer is the sum of the gaps between the running
//! maximum and each element.

use vstd::prelude::*;

verus! {

/// The largest of `a[0..=i]`.
pub open spec fn prefix_max(a: Seq<i64>, i: int) -> int
    decreases i,
{
    if i <= 0 {
        a[0] as int
    } else if prefix_max(a, i - 1) >= a[i] {
        prefix_max(a, i - 1)
    } else {
        a[i] as int
    }
}

/// The moves needed to make `a[0..k]` non-decreasing by raising elements.
pub open spec fn moves_upto(a: Seq<i64>, k: int) -> int
    decreases k,
{
    if k <= 1 {
        0
    } else {
        moves_upto(a, k - 1) + (prefix_max(a, k - 1) - a[k - 1])
    }
}

/// The fewest moves that make all of `a` non-decreasing.
pub open spec fn min_moves_spec(a: Seq<i64>) -> int {
    moves_upto(a, a.len() as int)
}

/// The sum of `b[i] - a[i]` over `i < k`: the moves that turn `a` into `b`.
pub open spec fn raise_cost(a: Seq<i64>, b: Seq<int>, k: int) -> int
    decreases k,
{
    if k <= 0 {
        0
    } else {
        raise_cost(a, b, k - 1) + (b[k - 1] - a[k - 1])
    }
}

/// The running maximum is at least every element so far, and is one of them.
pub proof fn lemma_prefix_max(a: Seq<i64>, i: int)
    requires
        0 <= i < a.len(),
    ensures
        forall|j: int| 0 <= j <= i ==> a[j] <= prefix_max(a, i),
        exists|j: int| 0 <= j <= i && a[j] == prefix_max(a, i),
        i > 0 ==> prefix_max(a, i - 1) <= prefix_max(a, i),
    decreases i,
{
    if i > 0 {
        lemma_prefix_max(a, i - 1);
        if prefix_max(a, i - 1) >= a[i] {
            let w = choose|w: int| 0 <= w <= i - 1 && a[w] == prefix_max(a, i - 1);
            assert(0 <= w <= i && a[w] == prefix_max(a, i));
        } else {
            assert(a[i] == prefix_max(a, i));
        }
    } else {
        assert(a[0] == prefix_max(a, 0));
    }
}

/// No prefix needs a negative number of moves.
pub proof fn lemma_moves_nonneg(a: Seq<i64>, k: int)
    requires
        k <= a.len(),
    ensures
        0 <= moves_upto(a, k),
    decreases k,
{
    if k > 1 {
        lemma_moves_nonneg(a, k - 1);
        lemma_prefix_max(a, k - 1);
    }
}

/// The move count only grows with the prefix, and every gap lies below it.
pub proof fn lemma_moves_monotone(a: Seq<i64>, k: int, l: int)
    requires
        1 <= k <= l <= a.len(),
    ensures
        moves_upto(a, k) <= moves_upto(a, l),
        0 <= moves_upto(a, k),
        prefix_max(a, k - 1) - a[k - 1] <= moves_upto(a, l),
    decreases l,
{
    lemma_moves_nonneg(a, k);
    lemma_moves_nonneg(a, k - 1);
    lemma_prefix_max(a, k - 1);
    if k == 1 {
        assert(prefix_max(a, 0) == a[0]);
    }
    if k < l {
        lemma_moves_monotone(a, k, l - 1);
        lemma_prefix_max(a, l - 1);
    }
}

/// Greedy is optimal: raising each element to the running maximum makes the
/// array non-decreasing with `min_moves_spec(a)` moves, and every
/// non-decreasing array `b` obtained by raising elements of `a` costs at
/// least as many.
pub proof fn lemma_greedy_optimal(a: Seq<i64>, b: Seq<int>)
    requires
        b.len() == a.len(),
        forall|i: int| 0 <= i < a.len() ==> b[i] >= a[i],
        forall|i: int, j: int| 0 <= i <= j < b.len() ==> b[i] <= b[j],
    ensures
        raise_cost(a, b, a.len() as int) >= min_moves_spec(a),
        raise_cost(a, Seq::new(a.len(), |i: int| prefix_max(a, i)), a.len() as int) == min_moves_spec(a),
        forall|i: int, j: int| 0 <= i <= j < a.len() ==> prefix_max(a, i) <= prefix_max(a, j),
{
    let g = Seq::new(a.len(), |i: int| prefix_max(a, i));
    lemma_greedy_prefix(a, b, g, a.len() as int);
    assert forall|i: int, j: int| 0 <= i <= j < a.len() implies prefix_max(a, i) <= prefix_max(a, j) by {
        lemma_prefix_max(a, j);
        lemma_prefix_max(a, i);
        let w = choose|w: int| 0 <= w <= i && a[w] == prefix_max(a, i);
        assert(a[w] <= prefix_max(a, j));
    }
}

proof fn lemma_greedy_prefix(a: Seq<i64>, b: Seq<int>, g: Seq<int>, k: int)
    requires
        b.len() == a.len(),
        g == Seq::new(a.len(), |i: int| prefix_max(a, i)),
        forall|i: int| 0 <= i < a.len() ==> b[i] >= a[i],
        forall|i: int, j: int| 0 <= i <= j < b.len() ==> b[i] <= b[j],
        0 <= k <= a.len(),
    ensures
        raise_cost(a, b, k) >= moves_upto(a, k),
        raise_cost(a, g, k) == moves_upto(a, k),
    decreases k,
{
    if k > 0 {
        lemma_greedy_prefix(a, b, g, k - 1);
        lemma_prefix_max(a, k - 1);
        let w = choose|w: int| 0 <= w <= k - 1 && a[w] == prefix_max(a, k - 1);
        assert(b[w] <= b[k - 1]);
        if k == 1 {
            assert(raise_cost(a, b, 0) == 0);
            assert(g[0] == a[0]);
        }
    }
}

/// Raises elements in place, each to the one before it when smaller, and
/// returns the total raise.
pub fn min_moves(a: &mut Vec<i64>) -> (moves: i64)
    requires
        min_moves_spec(old(a)@) <= i64::MAX,
    ensures
        moves == min_moves_spec(old(a)@),
        final(a)@.len() == old(a)@.len(),
        forall|i: int| 0 <= i < old(a)@.len() ==> final(a)@[i] == prefix_max(old(a)@, i),
{
    let ghost a0 = a@;
    let n = a.len();
    let mut moves: i64 = 0;
    if n == 0 {
        return 0;
    }
    let mut i: usize = 1;
    while i < n
        invariant
            n == a.len(),
            a0.len() == n,
            1 <= i <= n,
            min_moves_spec(a0) <= i64::MAX,
            moves == moves_upto(a0, i as int),
            forall|j: int| 0 <= j < i ==> a@[j] == prefix_max(a0, j),
            forall|j: int| i <= j < n ==> a@[j] == a0[j],
        decreases n - i,
    {
        proof {
            lemma_moves_monotone(a0, i as int + 1, n as int);
        }
        if a[i] < a[i - 1] {
            moves += a[i - 1] - a[i];
            let prev = a[i - 1];
            a.set(i, prev);
        }
        i += 1;
    }
    moves
}

/// Tells whether the fewest moves fit a signed 64-bit integer, the type in
/// which the counting functions add them up.
pub fn min_moves_fits(a: &[i64]) -> (ok: bool)
    ensures
        ok == (min_moves_spec(a@) <= i64::MAX),
{
    let n = a.len();
    if n <= 1 {
        return true;
    }
    let mut prev: i128 = a[0] as i128;
    let mut total: i128 = 0;
    let mut i: usize = 1;
    while i < n
        invariant
            n == a.len(),
            1 <= i <= n,
            total == moves_upto(a@, i as int),
            total <= i64::MAX,
            prev == prefix_max(a@, i - 1),
            i64::MIN <= prev <= i64::MAX,
        decreases n - i,
    {
        proof {
            lemma_prefix_max(a@, i as int);
        }
        let x = a[i] as i128;
        if x < prev {
            total = total + (prev - x);
        } else {
            prev = x;
        }
        if total > i64::MAX as i128 {
            proof {
                lemma_moves_monotone(a@, i as int + 1, n as int);
            }
            return false;
        }
        i += 1;
    }
    true
}

/// One pass keeping only the running maximum; needs at least one element.
pub fn min_moves_running_max(a: &[i64]) -> (moves: i64)
    requires
        a.len() >= 1,
        min_moves_spec(a@) <= i64::MAX,
    ensures
        moves == min_moves_spec(a@),
{
    let n = a.len();
    let mut prev: i64 = a[0];
    let mut moves: i64 = 0;
    let mut i: usize = 1;
    while i < n
        invariant
            n == a.len(),
            1 <= i <= n,
            min_moves_spec(a@) <= i64::MAX,
            moves == moves_upto(a@, i as int),
            prev == prefix_max(a@, i - 1),
        decreases n - i,
    {
        proof {
            lemma_moves_monotone(a@, i as int + 1, n as int);
        }
        let x = a[i];
        if x < prev {
            moves += prev - x;
        } else {
            prev = x;
        }
        i += 1;
    }
    moves
}

/// Builds the array of running maxima, then sums the gaps to it.
pub fn min_moves_prefix_max(a: &[i64]) -> (moves: i64)
    requires
        min_moves_spec(a@) <= i64::MAX,
    ensures
        moves == min_moves_spec(a@),
{
    let n = a.len();
    let mut pmax: Vec<i64> = Vec::new();
    let mut running: i64 = i64::MIN;
    let mut i: usize = 0;
    while i < n
        invariant
            n == a.len(),
            i <= n,
            pmax@.len() == i,
            forall|j: int| 0 <= j < i ==> pmax@[j] == prefix_max(a@, j),
            i > 0 ==> running == prefix_max(a@, i - 1),
            i == 0 ==> running == i64::MIN,
        decreases n - i,
    {
        let x = a[i];
        running = if running >= x { running } else { x };
        proof {
            if i == 0 {
                assert(prefix_max(a@, 0) == a@[0]);
            } else {
                assert(prefix_max(a@, i as int) == if prefix_max(a@, i - 1) >= a@[i as int] { prefix_max(a@, i - 1) } else { a@[i as int] as int });
            }
        }
        pmax.push(running);
        proof {
            assert(running == prefix_max(a@, i as int));
            assert(pmax@[i as int] == prefix_max(a@, i as int));
        }
        i += 1;
    }
    let mut moves: i64 = 0;
    let mut i: usize = 0;
    while i < n
        invariant
            n == a.len(),
            i <= n,
            pmax@.len() == n,
            forall|j: int| 0 <= j < n ==> pmax@[j] == prefix_max(a@, j),
            min_moves_spec(a@) <= i64::MAX,
            moves == if i == 0 { 0 } else { moves_upto(a@, i as int) },
        decreases n - i,
    {
        proof {
            lemma_moves_monotone(a@, i as int + 1, n as int);
            if i == 0 {
                assert(prefix_max(a@, 0) == a@[0]);
            }
        }
        moves += pmax[i] - a[i];
        i += 1;
    }
    moves
}

/// Recursively makes `a[0..=i]` non-decreasing in place and returns the moves
/// it took.
pub fn solve(a: &mut Vec<i64>, i: usize) -> (moves: i64)
    requires
        i < old(a)@.len(),
        moves_upto(old(a)@, i + 1) <= i64::MAX,
    ensures
        moves == moves_upto(old(a)@, i + 1),
        final(a)@.len() == old(a)@.len(),
        forall|j: int| 0 <= j <= i ==> final(a)@[j] == prefix_max(old(a)@, j),
        forall|j: int| i < j < old(a)@.len() ==> final(a)@[j] == old(a)@[j],
    decreases i,
{
    if i == 0 {
        return 0;
    }
    proof {
        lemma_moves_monotone(old(a)@, i as int, i as int + 1);
    }
    let moves = solve(a, i - 1);
    if a[i] < a[i - 1] {
        let diff = a[i - 1] - a[i];
        let prev = a[i - 1];
        a.set(i, prev);
        moves + diff
    } else {
        moves
    }
}

} // verus!
