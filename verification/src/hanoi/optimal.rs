//! No sequence of legal moves carries a tower of `n` disks to another peg in
//! fewer than `2^n - 1` moves, and the optimal moves are the only sequence
//! that does it in exactly that many.

use vstd::prelude::*;
use vstd::arithmetic::power2::{pow2, lemma_pow2_unfold};
use crate::hanoi::{
    apply_move, hanoi, legal, lemma_replay_concat, lemma_sound_move, replay, sound_pegs, tower,
    Move,
};

verus! {

/// Every move names two of the three pegs.
pub open spec fn valid_moves(moves: Seq<Move>) -> bool {
    forall|i: int|
        0 <= i < moves.len() ==> 1 <= (#[trigger] moves[i]).0 <= 3 && 1 <= moves[i].1 <= 3
}

/// Played from `pegs`, every move of `moves` is legal.
pub open spec fn plays(pegs: Seq<Seq<u32>>, moves: Seq<Move>) -> bool {
    &&& valid_moves(moves)
    &&& forall|i: int|
        0 <= i < moves.len() ==> #[trigger] legal(replay(pegs, moves.take(i)), moves[i])
}

/// All `n` disks stacked on peg `p`, the other pegs empty.
pub open spec fn tower_on(n: nat, p: u8) -> Seq<Seq<u32>> {
    Seq::new(3, |q: int| if q == p - 1 { tower(n) } else { Seq::<u32>::empty() })
}

/// The peg that is neither `f` nor `t`.
pub open spec fn third(f: u8, t: u8) -> u8 {
    (6 - f - t) as u8
}

/// A sound position of exactly the disks `1..=n`.
pub open spec fn full(pegs: Seq<Seq<u32>>, n: nat) -> bool {
    &&& sound_pegs(pegs)
    &&& forall|q: int, i: int| 0 <= q < 3 && 0 <= i < pegs[q].len() ==> #[trigger] pegs[q][i] <= n
    &&& pegs[0].len() + pegs[1].len() + pegs[2].len() == n
}

/// The pegs with the bottom disk of peg `p` (counted from 0) taken away.
pub open spec fn lift(pegs: Seq<Seq<u32>>, p: int) -> Seq<Seq<u32>> {
    pegs.update(p, pegs[p].drop_first())
}

/// Move `i` of `moves`, played from `pegs`, moves disk `big`.
pub open spec fn moves_disk(pegs: Seq<Seq<u32>>, moves: Seq<Move>, i: int, big: nat) -> bool {
    replay(pegs, moves.take(i))[moves[i].0 - 1].last() == big
}

/// Playing one more move.
proof fn lemma_replay_take(pegs: Seq<Seq<u32>>, moves: Seq<Move>, i: int)
    requires
        0 <= i < moves.len(),
    ensures
        replay(pegs, moves.take(i + 1)) == apply_move(replay(pegs, moves.take(i)), moves[i]),
{
    assert(moves.take(i + 1).drop_last() =~= moves.take(i));
    assert(moves.take(i + 1).last() == moves[i]);
}

/// A tower is full.
proof fn lemma_tower_full(n: nat, p: u8)
    requires
        1 <= p <= 3,
        n <= u32::MAX,
    ensures
        full(tower_on(n, p), n),
{
    let c = tower_on(n, p);
    assert(c[0].len() + c[1].len() + c[2].len() == n);
}

/// A legal move keeps a position full.
proof fn lemma_full_move(pegs: Seq<Seq<u32>>, n: nat, mv: Move)
    requires
        full(pegs, n),
        1 <= mv.0 <= 3,
        1 <= mv.1 <= 3,
        legal(pegs, mv),
    ensures
        full(apply_move(pegs, mv), n),
{
    lemma_sound_move(pegs, mv);
    let a = mv.0 as int - 1;
    let b = mv.1 as int - 1;
    let c = apply_move(pegs, mv);
    assert(a != b);
    assert(c[a] =~= pegs[a].drop_last());
    assert(c[b] =~= pegs[b].push(pegs[a].last()));
    assert forall|q: int, i: int| 0 <= q < 3 && 0 <= i < c[q].len() implies #[trigger] c[q][i] <= n by {
        if q == b && i == c[q].len() - 1 {
            assert(pegs[a][pegs[a].len() - 1] <= n);
        } else if q == a {
            assert(c[q][i] == pegs[a][i]);
        } else if q == b {
            assert(c[q][i] == pegs[b][i]);
        }
    }
    if a != 0 && b != 0 {
        assert(c[0] == pegs[0]);
    }
    if a != 1 && b != 1 {
        assert(c[1] == pegs[1]);
    }
    if a != 2 && b != 2 {
        assert(c[2] == pegs[2]);
    }
}

/// Legal moves from a full position keep it full.
proof fn lemma_replay_full(pegs: Seq<Seq<u32>>, n: nat, moves: Seq<Move>, k: int)
    requires
        full(pegs, n),
        plays(pegs, moves),
        0 <= k <= moves.len(),
    ensures
        full(replay(pegs, moves.take(k)), n),
    decreases k,
{
    if k == 0 {
        assert(moves.take(0) =~= Seq::<Move>::empty());
    } else {
        lemma_replay_full(pegs, n, moves, k - 1);
        lemma_replay_take(pegs, moves, k - 1);
        assert(legal(replay(pegs, moves.take(k - 1)), moves[k - 1]));
        lemma_full_move(replay(pegs, moves.take(k - 1)), n, moves[k - 1]);
    }
}

/// In a full position the largest disk lies at the bottom of its peg, and
/// every other disk is smaller.
proof fn lemma_largest_at_bottom(pegs: Seq<Seq<u32>>, n: nat, q: int, i: int)
    requires
        full(pegs, n),
        0 <= q < 3,
        0 <= i < pegs[q].len(),
        pegs[q][i] == n,
    ensures
        i == 0,
        forall|r: int, j: int|
            0 <= r < 3 && 0 <= j < pegs[r].len() && !(r == q && j == 0) ==> #[trigger] pegs[r][j]
                < n,
{
    if i > 0 {
        assert(pegs[q][0] > pegs[q][i]);
        assert(pegs[q][0] <= n);
    }
    assert forall|r: int, j: int|
        0 <= r < 3 && 0 <= j < pegs[r].len() && !(r == q && j == 0) implies #[trigger] pegs[r][j]
        < n by {
        assert(pegs[r][j] <= n);
        if r == q {
            assert(pegs[q][0] > pegs[q][j]);
        } else {
            assert(pegs[r][j] != pegs[q][0]);
        }
    }
}

/// A strictly decreasing stack of `l` disks numbered `1..=l` is the tower of
/// those disks.
proof fn lemma_stack_is_tower(s: Seq<u32>, l: nat)
    requires
        s.len() == l,
        forall|i: int, j: int| 0 <= i < j < s.len() ==> #[trigger] s[i] > #[trigger] s[j],
        forall|i: int| 0 <= i < s.len() ==> 1 <= #[trigger] s[i] <= l,
    ensures
        s == tower(l),
{
    assert forall|i: int| 0 <= i < l implies #[trigger] s[i] == tower(l)[i] by {
        lemma_decreasing_gap(s, 0, i);
        lemma_decreasing_gap(s, i, l - 1);
    }
    assert(s =~= tower(l));
}

proof fn lemma_decreasing_gap(s: Seq<u32>, i: int, j: int)
    requires
        forall|a: int, b: int| 0 <= a < b < s.len() ==> #[trigger] s[a] > #[trigger] s[b],
        0 <= i <= j < s.len(),
    ensures
        s[i] >= s[j] + (j - i),
    decreases j - i,
{
    if i < j {
        lemma_decreasing_gap(s, i + 1, j);
        assert(s[i] > s[i + 1]);
    }
}

/// A move that leaves the bottom disk `n` of peg `p` in place keeps it at
/// the bottom, is legal without that disk, and commutes with lifting it.
proof fn lemma_lift_step(pegs: Seq<Seq<u32>>, n: nat, p: int, mv: Move)
    requires
        full(pegs, n),
        0 <= p < 3,
        pegs[p].len() >= 1,
        pegs[p][0] == n,
        1 <= mv.0 <= 3,
        1 <= mv.1 <= 3,
        legal(pegs, mv),
        pegs[mv.0 - 1].last() != n,
    ensures
        apply_move(pegs, mv)[p].len() >= 1,
        apply_move(pegs, mv)[p][0] == n,
        legal(lift(pegs, p), mv),
        lift(apply_move(pegs, mv), p) == apply_move(lift(pegs, p), mv),
{
    let a = mv.0 as int - 1;
    let b = mv.1 as int - 1;
    let c = apply_move(pegs, mv);
    let l = lift(pegs, p);
    assert(a != b);
    if a == p {
        assert(pegs[p].len() >= 2);
        assert(pegs[p].drop_last().drop_first() =~= pegs[p].drop_first().drop_last());
        assert(l[a].last() == pegs[a].last());
    }
    if b == p {
        assert(pegs[p].push(pegs[a].last()).drop_first() =~= pegs[p].drop_first().push(
            pegs[a].last(),
        ));
        if l[b].len() > 0 {
            assert(l[b].last() == pegs[b].last());
        }
    }
    assert(lift(c, p) =~= apply_move(l, mv));
}

/// While moves leave the bottom disk `n` of peg `p` in place, it stays
/// there, and the moves play the same way without it.
proof fn lemma_lift_prefix(pegs: Seq<Seq<u32>>, n: nat, p: int, moves: Seq<Move>, k: int)
    requires
        full(pegs, n),
        0 <= p < 3,
        pegs[p].len() >= 1,
        pegs[p][0] == n,
        plays(pegs, moves),
        0 <= k <= moves.len(),
        forall|i: int| 0 <= i < k ==> !#[trigger] moves_disk(pegs, moves, i, n),
    ensures
        replay(pegs, moves.take(k))[p].len() >= 1,
        replay(pegs, moves.take(k))[p][0] == n,
        lift(replay(pegs, moves.take(k)), p) == replay(lift(pegs, p), moves.take(k)),
        forall|i: int| 0 <= i < k ==> #[trigger] legal(replay(lift(pegs, p), moves.take(i)), moves[i]),
    decreases k,
{
    if k == 0 {
        assert(moves.take(0) =~= Seq::<Move>::empty());
    } else {
        lemma_lift_prefix(pegs, n, p, moves, k - 1);
        let c = replay(pegs, moves.take(k - 1));
        lemma_replay_full(pegs, n, moves, k - 1);
        assert(legal(c, moves[k - 1]));
        assert(!moves_disk(pegs, moves, k - 1, n));
        lemma_lift_step(c, n, p, moves[k - 1]);
        lemma_replay_take(pegs, moves, k - 1);
        lemma_replay_take(lift(pegs, p), moves, k - 1);
    }
}

/// The first move below `k` that moves disk `n`.
proof fn lemma_first_move_of(pegs: Seq<Seq<u32>>, moves: Seq<Move>, n: nat, k: int) -> (i: int)
    requires
        0 <= k <= moves.len(),
        exists|j: int| 0 <= j < k && #[trigger] moves_disk(pegs, moves, j, n),
    ensures
        0 <= i < k,
        moves_disk(pegs, moves, i, n),
        forall|j: int| 0 <= j < i ==> !#[trigger] moves_disk(pegs, moves, j, n),
    decreases k,
{
    if exists|j: int| 0 <= j < k - 1 && #[trigger] moves_disk(pegs, moves, j, n) {
        lemma_first_move_of(pegs, moves, n, k - 1)
    } else {
        k - 1
    }
}

/// The last move from `k` on that moves disk `n`.
proof fn lemma_last_move_of(pegs: Seq<Seq<u32>>, moves: Seq<Move>, n: nat, k: int) -> (i: int)
    requires
        0 <= k <= moves.len(),
        exists|j: int| k <= j < moves.len() && #[trigger] moves_disk(pegs, moves, j, n),
    ensures
        k <= i < moves.len(),
        moves_disk(pegs, moves, i, n),
        forall|j: int| i < j < moves.len() ==> !#[trigger] moves_disk(pegs, moves, j, n),
    decreases moves.len() - k,
{
    if exists|j: int| k + 1 <= j < moves.len() && #[trigger] moves_disk(pegs, moves, j, n) {
        lemma_last_move_of(pegs, moves, n, k + 1)
    } else {
        k
    }
}

/// When the largest disk `n` of a full position is moved, it sits alone on
/// its peg, goes to an empty peg, and all other disks form a tower on the
/// third peg.
proof fn lemma_largest_moves(pegs: Seq<Seq<u32>>, n: nat, mv: Move)
    requires
        n >= 1,
        full(pegs, n),
        1 <= mv.0 <= 3,
        1 <= mv.1 <= 3,
        legal(pegs, mv),
        pegs[mv.0 - 1].last() == n,
    ensures
        ({
            let a = mv.0 - 1;
            let b = mv.1 - 1;
            let y = 3 - a - b;
            &&& a != b
            &&& 0 <= y < 3 && y != a && y != b
            &&& pegs[a] == seq![n as u32]
            &&& pegs[b] == Seq::<u32>::empty()
            &&& pegs[y] == tower((n - 1) as nat)
        }),
{
    let a = mv.0 - 1;
    let b = mv.1 - 1;
    let y = 3 - a - b;
    assert(a != b);
    let top = pegs[a].len() - 1;
    lemma_largest_at_bottom(pegs, n, a, top);
    assert(pegs[a] =~= seq![n as u32]);
    if pegs[b].len() > 0 {
        assert(pegs[b][pegs[b].len() - 1] < n);
    }
    assert(pegs[b] =~= Seq::<u32>::empty());
    assert(pegs[y].len() == n - 1) by {
        if a == 0 && b == 1 || a == 1 && b == 0 {
            assert(y == 2);
        } else if a == 0 && b == 2 || a == 2 && b == 0 {
            assert(y == 1);
        } else {
            assert(y == 0);
        }
    }
    assert forall|i: int| 0 <= i < pegs[y].len() implies 1 <= #[trigger] pegs[y][i] <= (n - 1) as nat by {
        assert(pegs[y][i] < n);
    }
    lemma_stack_is_tower(pegs[y], (n - 1) as nat);
}

proof fn lemma_tower_lift(n: nat, p: u8)
    requires
        n >= 1,
        n <= u32::MAX,
        1 <= p <= 3,
    ensures
        lift(tower_on(n, p), p - 1) == tower_on((n - 1) as nat, p),
        tower_on(n, p)[p - 1][0] == n,
{
    assert(tower(n).drop_first() =~= tower((n - 1) as nat));
    assert(lift(tower_on(n, p), p - 1) =~= tower_on((n - 1) as nat, p));
}

/// Lifting the largest disk off a peg where it stands alone, with an empty
/// peg beside it, leaves the tower of the other disks on the third peg.
proof fn lemma_lift_alone(pegs: Seq<Seq<u32>>, n: nat, a: int, b: int)
    requires
        n >= 1,
        pegs.len() == 3,
        0 <= a < 3,
        0 <= b < 3,
        a != b,
        pegs[a] == seq![n as u32],
        pegs[b] == Seq::<u32>::empty(),
        pegs[3 - a - b] == tower((n - 1) as nat),
    ensures
        lift(pegs, a) == tower_on((n - 1) as nat, (3 - a - b + 1) as u8),
{
    let y = 3 - a - b;
    let l = lift(pegs, a);
    let w = tower_on((n - 1) as nat, (y + 1) as u8);
    assert(seq![n as u32].drop_first() =~= Seq::<u32>::empty());
    assert forall|q: int| 0 <= q < 3 implies l[q] == w[q] by {
        if q == a {
        } else if q == b {
        } else {
            assert(q == y);
        }
    }
    assert(l =~= w);
}

/// Up to the first move of the largest disk, the other disks travel as a
/// tower from `f` to some third peg, and that move takes the largest disk
/// from `f` to the remaining peg.
proof fn lemma_before_first(n: nat, f: u8, moves: Seq<Move>, i1: int) -> (y: u8)
    requires
        n >= 1,
        n <= u32::MAX,
        1 <= f <= 3,
        plays(tower_on(n, f), moves),
        0 <= i1 < moves.len(),
        moves_disk(tower_on(n, f), moves, i1, n),
        forall|j: int| 0 <= j < i1 ==> !#[trigger] moves_disk(tower_on(n, f), moves, j, n),
    ensures
        1 <= y <= 3,
        y != f,
        moves[i1].0 == f,
        moves[i1].1 != y,
        y == third(f, moves[i1].1),
        plays(tower_on((n - 1) as nat, f), moves.take(i1)),
        replay(tower_on((n - 1) as nat, f), moves.take(i1)) == tower_on((n - 1) as nat, y),
{
    let n1 = (n - 1) as nat;
    let c0 = tower_on(n, f);
    let fp = f - 1;
    lemma_tower_full(n, f);
    lemma_tower_lift(n, f);
    lemma_lift_prefix(c0, n, fp, moves, i1);
    let c1 = replay(c0, moves.take(i1));
    lemma_replay_full(c0, n, moves, i1);
    let mv1 = moves[i1];
    assert(legal(c1, mv1));
    lemma_largest_moves(c1, n, mv1);
    let a1 = mv1.0 - 1;
    let b1 = mv1.1 - 1;
    assert(a1 == fp) by {
        lemma_largest_at_bottom(c1, n, fp, 0);
        if a1 != fp {
            assert(c1[a1][0] < n);
        }
    }
    lemma_lift_alone(c1, n, a1, b1);
    let pre = moves.take(i1);
    assert forall|i: int| 0 <= i < pre.len() implies #[trigger] legal(
        replay(tower_on(n1, f), pre.take(i)),
        pre[i],
    ) by {
        assert(pre.take(i) =~= moves.take(i));
        assert(legal(replay(lift(c0, fp), moves.take(i)), moves[i]));
    }
    assert(pre.take(i1) =~= moves.take(i1));
    (3 - a1 - b1 + 1) as u8
}

/// After the last move of the largest disk, which puts it on the target
/// `t`, the other disks travel as a tower from the third peg onto it.
proof fn lemma_after_last(n: nat, f: u8, t: u8, moves: Seq<Move>, i2: int) -> (w: u8)
    requires
        n >= 1,
        n <= u32::MAX,
        1 <= f <= 3,
        1 <= t <= 3,
        plays(tower_on(n, f), moves),
        replay(tower_on(n, f), moves) == tower_on(n, t),
        0 <= i2 < moves.len(),
        moves_disk(tower_on(n, f), moves, i2, n),
        forall|j: int| i2 < j < moves.len() ==> !#[trigger] moves_disk(tower_on(n, f), moves, j, n),
    ensures
        1 <= w <= 3,
        w != t,
        moves[i2].1 == t,
        w == third(moves[i2].0, t),
        plays(tower_on((n - 1) as nat, w), moves.subrange(i2 + 1, moves.len() as int)),
        replay(tower_on((n - 1) as nat, w), moves.subrange(i2 + 1, moves.len() as int))
            == tower_on((n - 1) as nat, t),
{
    let n1 = (n - 1) as nat;
    let c0 = tower_on(n, f);
    let len = moves.len() as int;
    lemma_tower_full(n, f);
    lemma_tower_lift(n, t);
    let c2 = replay(c0, moves.take(i2));
    lemma_replay_full(c0, n, moves, i2);
    let mv2 = moves[i2];
    assert(legal(c2, mv2));
    lemma_largest_moves(c2, n, mv2);
    let a2 = mv2.0 - 1;
    let b2 = mv2.1 - 1;
    let w2 = 3 - a2 - b2;
    lemma_replay_take(c0, moves, i2);
    let c3 = replay(c0, moves.take(i2 + 1));
    lemma_replay_full(c0, n, moves, i2 + 1);
    assert(c3[b2] =~= seq![n as u32]);
    assert(c3[a2] =~= Seq::<u32>::empty());
    assert(c3[w2] == tower(n1));
    let post = moves.subrange(i2 + 1, len);
    assert forall|j: int| 0 <= j <= post.len() implies #[trigger] replay(c3, post.take(j)) == replay(
        c0,
        moves.take(i2 + 1 + j),
    ) by {
        lemma_replay_concat(c0, moves.take(i2 + 1), post.take(j));
        assert(moves.take(i2 + 1) + post.take(j) =~= moves.take(i2 + 1 + j));
    }
    assert forall|j: int| 0 <= j < post.len() implies #[trigger] legal(
        replay(c3, post.take(j)),
        post[j],
    ) by {
        assert(replay(c3, post.take(j)) == replay(c0, moves.take(i2 + 1 + j)));
        assert(legal(replay(c0, moves.take(i2 + 1 + j)), moves[i2 + 1 + j]));
    }
    assert forall|j: int| 0 <= j < post.len() implies !#[trigger] moves_disk(c3, post, j, n) by {
        assert(replay(c3, post.take(j)) == replay(c0, moves.take(i2 + 1 + j)));
        assert(!moves_disk(c0, moves, i2 + 1 + j, n));
    }
    lemma_lift_prefix(c3, n, b2, post, post.len() as int);
    assert(post.take(post.len() as int) =~= post);
    assert(moves.take(len) =~= moves);
    assert(replay(c3, post) == replay(c0, moves));
    assert(b2 == t - 1) by {
        if b2 != t - 1 {
            assert(tower_on(n, t)[b2].len() == 0);
        }
    }
    lemma_lift_alone(c3, n, b2, a2);
    assert forall|j: int| 0 <= j < post.len() implies #[trigger] legal(
        replay(tower_on(n1, (w2 + 1) as u8), post.take(j)),
        post[j],
    ) by {
        assert(legal(replay(lift(c3, b2), post.take(j)), post[j]));
    }
    (w2 + 1) as u8
}

/// The fewest moves: any sequence of legal moves that carries a tower of `n`
/// disks from peg `f` to another peg `t` makes at least `2^n - 1` moves, and
/// the only one that makes exactly that many is the optimal sequence of the
/// recursive rule. The largest disk has to move at least once; before its
/// first move the other disks must all have gone to the third peg, and after
/// its last move they must all come back onto it.
pub proof fn lemma_hanoi_optimal(n: nat, f: u8, t: u8, moves: Seq<Move>)
    requires
        1 <= f <= 3,
        1 <= t <= 3,
        f != t,
        n <= u32::MAX,
        plays(tower_on(n, f), moves),
        replay(tower_on(n, f), moves) == tower_on(n, t),
    ensures
        moves.len() + 1 >= pow2(n),
        moves.len() + 1 == pow2(n) ==> moves == hanoi(n, f, t, third(f, t)),
    decreases n,
{
    if n == 0 {
        assert(pow2(0) == 1) by {
            vstd::arithmetic::power2::lemma2_to64();
        }
        if moves.len() == 0 {
            assert(moves =~= hanoi(0, f, t, third(f, t)));
        }
    } else {
        let n1 = (n - 1) as nat;
        let c0 = tower_on(n, f);
        let len = moves.len() as int;
        // The largest disk moves at least once.
        if !exists|j: int| 0 <= j < len && #[trigger] moves_disk(c0, moves, j, n) {
            lemma_tower_full(n, f);
            lemma_tower_lift(n, f);
            lemma_lift_prefix(c0, n, f - 1, moves, len);
            assert(moves.take(len) =~= moves);
            assert(tower_on(n, t)[f - 1].len() == 0);
        }
        let i1 = lemma_first_move_of(c0, moves, n, len);
        let i2 = lemma_last_move_of(c0, moves, n, 0);
        assert(i1 <= i2) by {
            if i2 < i1 {
                assert(moves_disk(c0, moves, i2, n));
            }
        }
        let y = lemma_before_first(n, f, moves, i1);
        let w = lemma_after_last(n, f, t, moves, i2);
        let pre = moves.take(i1);
        let post = moves.subrange(i2 + 1, len);
        lemma_hanoi_optimal(n1, f, y, pre);
        lemma_hanoi_optimal(n1, w, t, post);
        lemma_pow2_unfold(n);
        if moves.len() + 1 == pow2(n) {
            assert(i1 == i2);
            assert(moves[i1] == (f, t));
            assert(moves =~= pre + seq![(f, t)] + post);
        }
    }
}

} // verus!
