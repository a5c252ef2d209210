//! Tower of Hanoi: the unique optimal sequence of `2^n - 1` moves that carries
//! `n` disks from peg 1 to peg 3, produced recursively and iteratively. A move
//! `(from, to)` takes the top disk of peg `from` and places it on peg `to`.

pub mod optimal;

use vstd::prelude::*;

verus! {

/// A single move: take the top disk from peg `.0` and place it on peg `.1`.
pub type Move = (u8, u8);

/// The optimal moves that carry the top `n` disks from `from` to `to`, using
/// `via` as the spare peg.
pub open spec fn hanoi(n: nat, from: u8, to: u8, via: u8) -> Seq<(u8, u8)>
    decreases n,
{
    if n == 0 {
        Seq::empty()
    } else {
        hanoi((n - 1) as nat, from, via, to) + seq![(from, to)] + hanoi((n - 1) as nat, via, to, from)
    }
}

/// `n` disks take `2^n - 1` moves.
pub proof fn lemma_hanoi_len(n: nat, from: u8, to: u8, via: u8)
    ensures
        hanoi(n, from, to, via).len() + 1 == vstd::arithmetic::power2::pow2(n),
    decreases n,
{
    if n > 0 {
        lemma_hanoi_len((n - 1) as nat, from, via, to);
        lemma_hanoi_len((n - 1) as nat, via, to, from);
        vstd::arithmetic::power2::lemma_pow2_unfold(n);
    } else {
        vstd::arithmetic::power2::lemma2_to64();
    }
}

/// Recursive divide and conquer: move `n - 1` disks aside, the largest disk
/// to the target, and the `n - 1` disks back on top of it.
pub fn recursive_moves(n: u32) -> (moves: Vec<Move>)
    requires
        n < 32,
    ensures
        moves@ == hanoi(n as nat, 1, 3, 2),
{
    assert((1usize << n) >= 1) by (bit_vector)
        requires n < 32;
    let cap: usize = (1usize << n) - 1;
    let mut moves: Vec<Move> = Vec::with_capacity(cap);
    rec(n, 1, 3, 2, &mut moves);
    proof {
        assert(moves@ =~= Seq::<(u8, u8)>::empty() + hanoi(n as nat, 1, 3, 2));
    }
    moves
}

fn rec(n: u32, from: u8, to: u8, via: u8, moves: &mut Vec<Move>)
    ensures
        final(moves)@ == old(moves)@ + hanoi(n as nat, from, to, via),
    decreases n,
{
    if n == 0 {
        proof {
            assert(moves@ =~= moves@ + Seq::<(u8, u8)>::empty());
        }
        return;
    }
    rec(n - 1, from, via, to, moves);
    moves.push((from, to));
    rec(n - 1, via, to, from, moves);
    proof {
        assert(hanoi(n as nat, from, to, via) == hanoi((n - 1) as nat, from, via, to) + seq![(from, to)]
            + hanoi((n - 1) as nat, via, to, from));
        assert(final(moves)@ =~= old(moves)@ + hanoi(n as nat, from, to, via));
    }
}

/// The disks `m, m - 1, ..., 1`, largest first: a stack of the `m` smallest
/// disks from bottom to top.
pub open spec fn tower(m: nat) -> Seq<u32> {
    Seq::new(m, |i: int| (m - i) as u32)
}

/// The three pegs after `mv`: the top disk of peg `mv.0` is put on peg `mv.1`.
/// Pegs are stacks listed from bottom to top.
pub open spec fn apply_move(pegs: Seq<Seq<u32>>, mv: Move) -> Seq<Seq<u32>> {
    let a = mv.0 as int - 1;
    let b = mv.1 as int - 1;
    let disk = pegs[a].last();
    pegs.update(a, pegs[a].drop_last()).update(b, pegs[b].push(disk))
}

/// The pegs after playing `moves` in order.
pub open spec fn replay(pegs: Seq<Seq<u32>>, moves: Seq<Move>) -> Seq<Seq<u32>>
    decreases moves.len(),
{
    if moves.len() == 0 {
        pegs
    } else {
        apply_move(replay(pegs, moves.drop_last()), moves.last())
    }
}

/// `mv` takes a disk from a nonempty peg and puts it on an empty peg or on a
/// larger disk.
pub open spec fn legal(pegs: Seq<Seq<u32>>, mv: Move) -> bool {
    let a = mv.0 as int - 1;
    let b = mv.1 as int - 1;
    &&& pegs[a].len() > 0
    &&& pegs[b].len() == 0 || pegs[b].last() > pegs[a].last()
}

/// The peg the smallest disk goes to from `p` when `m` disks travel from `f`
/// to `t` with spare `v`: it cycles `f, t, v` for odd `m` and `f, v, t` for
/// even `m`.
pub open spec fn next_peg(m: nat, f: u8, t: u8, v: u8, p: u8) -> u8 {
    if m % 2 == 1 {
        if p == f {
            t
        } else if p == t {
            v
        } else {
            f
        }
    } else {
        if p == f {
            v
        } else if p == v {
            t
        } else {
            f
        }
    }
}

/// Move `i` of `moves`, played from `pegs`, is legal; it moves the smallest
/// disk exactly when `i` is even, and then along the cycle of `next_peg`.
pub open spec fn parity_step(
    pegs: Seq<Seq<u32>>,
    moves: Seq<Move>,
    i: int,
    m: nat,
    f: u8,
    t: u8,
    v: u8,
) -> bool {
    let before = replay(pegs, moves.take(i));
    let mv = moves[i];
    &&& legal(before, mv)
    &&& (i % 2 == 0) == (before[mv.0 as int - 1].last() == 1)
    &&& i % 2 == 0 ==> mv.1 == next_peg(m, f, t, v, mv.0)
}

/// Every disk of `s` is larger than `m`.
pub open spec fn all_above(s: Seq<u32>, m: nat) -> bool {
    forall|i: int| 0 <= i < s.len() ==> s[i] > m
}

/// `f`, `t`, `v` name the three pegs.
pub open spec fn three_pegs(f: u8, t: u8, v: u8) -> bool {
    &&& 1 <= f <= 3
    &&& 1 <= t <= 3
    &&& 1 <= v <= 3
    &&& f != t
    &&& t != v
    &&& f != v
}

/// Playing `a + b` is playing `a`, then `b`.
pub proof fn lemma_replay_concat(pegs: Seq<Seq<u32>>, a: Seq<Move>, b: Seq<Move>)
    ensures
        replay(pegs, a + b) == replay(replay(pegs, a), b),
    decreases b.len(),
{
    if b.len() == 0 {
        assert(a + b =~= a);
    } else {
        lemma_replay_concat(pegs, a, b.drop_last());
        assert((a + b).drop_last() =~= a + b.drop_last());
        assert((a + b).last() == b.last());
    }
}

proof fn lemma_tower_split(m: nat, base: Seq<u32>)
    requires
        1 <= m <= u32::MAX,
    ensures
        tower(m) == seq![m as u32] + tower((m - 1) as nat),
        base + tower(m) == base.push(m as u32) + tower((m - 1) as nat),
{
    assert(tower(m) =~= seq![m as u32] + tower((m - 1) as nat));
    assert(base + tower(m) =~= base.push(m as u32) + tower((m - 1) as nat));
}

/// The optimal moves only use the three named pegs.
proof fn lemma_hanoi_pegs(m: nat, f: u8, t: u8, v: u8)
    ensures
        forall|i: int|
            0 <= i < hanoi(m, f, t, v).len() ==> {
                let mv = #[trigger] hanoi(m, f, t, v)[i];
                (mv.0 == f || mv.0 == t || mv.0 == v) && (mv.1 == f || mv.1 == t || mv.1 == v)
            },
    decreases m,
{
    if m > 0 {
        let m1 = (m - 1) as nat;
        lemma_hanoi_pegs(m1, f, v, t);
        lemma_hanoi_pegs(m1, v, t, f);
        let a = hanoi(m1, f, v, t);
        let b = hanoi(m1, v, t, f);
        let h = hanoi(m, f, t, v);
        assert forall|i: int| 0 <= i < h.len() implies {
            let mv = #[trigger] h[i];
            (mv.0 == f || mv.0 == t || mv.0 == v) && (mv.1 == f || mv.1 == t || mv.1 == v)
        } by {
            if i < a.len() {
                assert(h[i] == a[i]);
            } else if i > a.len() {
                assert(h[i] == b[i - a.len() - 1]);
            }
        }
    }
}

/// Both halves of the optimal moves send the smallest disk around the same
/// cycle as the whole.
proof fn lemma_next_peg_halves(m: nat, f: u8, t: u8, v: u8, p: u8)
    requires
        m >= 1,
        three_pegs(f, t, v),
        p == f || p == t || p == v,
    ensures
        next_peg((m - 1) as nat, f, v, t, p) == next_peg(m, f, t, v, p),
        next_peg((m - 1) as nat, v, t, f, p) == next_peg(m, f, t, v, p),
{
}

proof fn lemma_pow2_even(k: nat)
    requires
        k >= 1,
    ensures
        vstd::arithmetic::power2::pow2(k) % 2 == 0,
{
    vstd::arithmetic::power2::lemma_pow2_unfold(k);
}

/// Playing the optimal moves for the top `m` disks of peg `f`, while every
/// other disk is larger, carries those disks to `t`, every move is legal,
/// the smallest disk moves on every other move starting with the first, and
/// it always goes around the same cycle of pegs.
pub proof fn lemma_hanoi_play(m: nat, f: u8, t: u8, v: u8, pegs: Seq<Seq<u32>>, base: Seq<u32>)
    requires
        three_pegs(f, t, v),
        m <= u32::MAX,
        pegs.len() == 3,
        pegs[f - 1] == base + tower(m),
        all_above(base, m),
        all_above(pegs[t - 1], m),
        all_above(pegs[v - 1], m),
    ensures
        replay(pegs, hanoi(m, f, t, v)) == pegs.update(f - 1, base).update(
            t - 1,
            pegs[t - 1] + tower(m),
        ),
        forall|i: int|
            0 <= i < hanoi(m, f, t, v).len() ==> #[trigger] parity_step(
                pegs,
                hanoi(m, f, t, v),
                i,
                m,
                f,
                t,
                v,
            ),
    decreases m,
{
    let h = hanoi(m, f, t, v);
    if m == 0 {
        assert(base + tower(0) =~= base);
        assert(pegs.update(f - 1, base).update(t - 1, pegs[t - 1] + tower(0)) =~= pegs);
    } else {
        let m1 = (m - 1) as nat;
        let a = hanoi(m1, f, v, t);
        let b = hanoi(m1, v, t, f);
        let mid: Move = (f, t);
        lemma_tower_split(m, base);
        let base1 = base.push(m as u32);
        assert(all_above(base1, m1)) by {
            assert forall|i: int| 0 <= i < base1.len() implies base1[i] > m1 by {
                if i < base.len() {
                    assert(base1[i] == base[i]);
                }
            }
        }
        lemma_hanoi_play(m1, f, v, t, pegs, base1);
        let p1 = replay(pegs, a);
        assert(p1 == pegs.update(f - 1, base1).update(v - 1, pegs[v - 1] + tower(m1)));
        let p2 = apply_move(p1, mid);
        assert(p1[f - 1] == base1);
        assert(base1.drop_last() =~= base);
        assert(p1[t - 1] == pegs[t - 1]);
        assert(p1[f - 1].last() == m as u32);
        assert(p2 =~= pegs.update(f - 1, base).update(t - 1, pegs[t - 1].push(m as u32)).update(
            v - 1,
            pegs[v - 1] + tower(m1),
        ));
        assert(all_above(p2[t - 1], m1)) by {
            let s2 = pegs[t - 1].push(m as u32);
            assert forall|i: int| 0 <= i < s2.len() implies s2[i] > m1 by {
                if i < pegs[t - 1].len() {
                    assert(s2[i] == pegs[t - 1][i]);
                }
            }
        }
        lemma_hanoi_play(m1, v, t, f, p2, pegs[v - 1]);
        assert(pegs[t - 1].push(m as u32) + tower(m1) =~= pegs[t - 1] + tower(m)) by {
            lemma_tower_split(m, pegs[t - 1]);
        }
        assert(h == a + seq![mid] + b);
        lemma_replay_concat(pegs, a + seq![mid], b);
        lemma_replay_concat(pegs, a, seq![mid]);
        assert(replay(p1, seq![mid]) == p2) by {
            assert(seq![mid].drop_last() =~= Seq::<Move>::empty());
            assert(replay(p1, Seq::<Move>::empty()) == p1);
            assert(seq![mid].last() == mid);
        }
        assert(replay(pegs, h) =~= pegs.update(f - 1, base).update(t - 1, pegs[t - 1] + tower(m)));
        lemma_hanoi_len(m1, f, v, t);
        lemma_hanoi_pegs(m1, f, v, t);
        lemma_hanoi_pegs(m1, v, t, f);
        let la = a.len() as int;
        assert forall|i: int| 0 <= i < h.len() implies #[trigger] parity_step(
            pegs,
            h,
            i,
            m,
            f,
            t,
            v,
        ) by {
            if i < la {
                assert(parity_step(pegs, a, i, m1, f, v, t));
                assert(h.take(i) =~= a.take(i));
                assert(h[i] == a[i]);
                lemma_next_peg_halves(m, f, t, v, a[i].0);
            } else if i == la {
                assert(h.take(i) =~= a);
                assert(h[i] == mid);
                if m1 >= 1 {
                    lemma_pow2_even(m1);
                }
                assert(p1[t - 1] == pegs[t - 1]);
            } else {
                let j = i - la - 1;
                assert(m1 >= 1) by {
                    if m1 == 0 {
                        assert(b.len() == 0);
                    }
                }
                lemma_pow2_even(m1);
                assert(parity_step(p2, b, j, m1, v, t, f));
                assert(h.take(i) =~= (a + seq![mid]) + b.take(j));
                assert(h[i] == b[j]);
                lemma_replay_concat(pegs, a + seq![mid], b.take(j));
                lemma_next_peg_halves(m, f, t, v, b[j].0);
            }
        }
    }
}

/// The optimal moves for `n` disks, played from a first peg holding all of
/// them, are all legal: no move takes from an empty peg or puts a disk on a
/// smaller one. They leave every disk on the third peg, in order, and there
/// are `2^n - 1` of them.
pub proof fn lemma_hanoi_solves(n: nat)
    requires
        n <= u32::MAX,
    ensures
        ({
            let start = seq![tower(n), Seq::<u32>::empty(), Seq::<u32>::empty()];
            let h = hanoi(n, 1, 3, 2);
            &&& forall|i: int| 0 <= i < h.len() ==> #[trigger] legal(replay(start, h.take(i)), h[i])
            &&& replay(start, h) == seq![Seq::<u32>::empty(), Seq::<u32>::empty(), tower(n)]
            &&& h.len() + 1 == vstd::arithmetic::power2::pow2(n)
        }),
{
    let start = seq![tower(n), Seq::<u32>::empty(), Seq::<u32>::empty()];
    let h = hanoi(n, 1, 3, 2);
    assert(start[0] =~= Seq::<u32>::empty() + tower(n));
    lemma_hanoi_play(n, 1, 3, 2, start, Seq::<u32>::empty());
    assert forall|i: int| 0 <= i < h.len() implies #[trigger] legal(replay(start, h.take(i)), h[i]) by {
        assert(parity_step(start, h, i, n, 1, 3, 2));
    }
    assert(Seq::<u32>::empty() + tower(n) =~= tower(n));
    assert(start.update(0, Seq::<u32>::empty()).update(2, Seq::<u32>::empty() + tower(n))
        =~= seq![Seq::<u32>::empty(), Seq::<u32>::empty(), tower(n)]);
    lemma_hanoi_len(n, 1, 3, 2);
}

/// Each peg holds distinct disks numbered from 1, larger below smaller, and
/// no disk is on two pegs.
pub open spec fn sound_pegs(pegs: Seq<Seq<u32>>) -> bool {
    &&& pegs.len() == 3
    &&& forall|p: int, i: int, j: int|
        0 <= p < 3 && 0 <= i < j < pegs[p].len() ==> #[trigger] pegs[p][i] > #[trigger] pegs[p][j]
    &&& forall|p: int, i: int| 0 <= p < 3 && 0 <= i < pegs[p].len() ==> #[trigger] pegs[p][i] >= 1
    &&& forall|p: int, q: int, i: int, j: int|
        0 <= p < 3 && 0 <= q < 3 && p != q && 0 <= i < pegs[p].len() && 0 <= j < pegs[q].len()
            ==> #[trigger] pegs[p][i] != #[trigger] pegs[q][j]
}

/// A legal move keeps the pegs sound.
proof fn lemma_sound_move(pegs: Seq<Seq<u32>>, mv: Move)
    requires
        sound_pegs(pegs),
        1 <= mv.0 <= 3,
        1 <= mv.1 <= 3,
        legal(pegs, mv),
    ensures
        sound_pegs(apply_move(pegs, mv)),
{
    let a = mv.0 as int - 1;
    let b = mv.1 as int - 1;
    let disk = pegs[a].last();
    let q = apply_move(pegs, mv);
    assert(a != b);
    assert(q[a] =~= pegs[a].drop_last());
    assert(q[b] =~= pegs[b].push(disk));
    assert forall|p: int, i: int, j: int|
        0 <= p < 3 && 0 <= i < j < q[p].len() implies #[trigger] q[p][i] > #[trigger] q[p][j] by {
        if p == b && j == q[p].len() - 1 {
            assert(pegs[b][i] >= pegs[b].last());
        }
    }
    assert forall|p: int, r: int, i: int, j: int|
        0 <= p < 3 && 0 <= r < 3 && p != r && 0 <= i < q[p].len() && 0 <= j < q[r].len()
            implies #[trigger] q[p][i] != #[trigger] q[r][j] by {
        if p == b && i == q[p].len() - 1 {
            assert(q[p][i] == pegs[a][pegs[a].len() - 1]);
            if r == a {
                assert(q[r][j] == pegs[a][j]);
            }
        } else if r == b && j == q[r].len() - 1 {
            assert(q[r][j] == pegs[a][pegs[a].len() - 1]);
            if p == a {
                assert(q[p][i] == pegs[a][i]);
            }
        } else {
            assert(q[p][i] == pegs[p][i]);
            assert(q[r][j] == pegs[r][j]);
        }
    }
}

/// The contents of the three peg vectors.
pub open spec fn peg_contents(pegs: Seq<Vec<u32>>) -> Seq<Seq<u32>> {
    pegs.map_values(|v: Vec<u32>| v@)
}

/// Iterative parity rule, no recursion: the smallest disk moves on every
/// odd-numbered step, always around the same cycle of pegs (which one
/// depends on the parity of `n`); on every even-numbered step the only
/// legal move that leaves the smallest disk alone is made. The three pegs
/// are kept as explicit stacks so that this move can be found.
pub fn iterative_moves(n: u32) -> (moves: Vec<Move>)
    requires
        n < 32,
    ensures
        moves@ == hanoi(n as nat, 1, 3, 2),
{
    let ghost h = hanoi(n as nat, 1, 3, 2);
    let sh: u64 = n as u64;
    proof {
        vstd::arithmetic::power2::lemma2_to64();
        vstd::arithmetic::power2::lemma_pow2_strictly_increases(n as nat, 32);
        vstd::bits::lemma_u64_shl_is_mul(1, sh);
        lemma_hanoi_len(n as nat, 1, 3, 2);
    }
    let total: u64 = (1u64 << sh) - 1;
    let mut moves: Vec<Move> = Vec::with_capacity(total as usize);

    // All disks start on the first peg, largest at the bottom.
    let mut pegs: Vec<Vec<u32>> = Vec::new();
    pegs.push(Vec::new());
    pegs.push(Vec::new());
    pegs.push(Vec::new());
    let mut d: u32 = n;
    while d > 0
        invariant
            d <= n,
            pegs.len() == 3,
            pegs@[0]@ == Seq::new((n - d) as nat, |i: int| (n - i) as u32),
            pegs@[1]@ == Seq::<u32>::empty(),
            pegs@[2]@ == Seq::<u32>::empty(),
        decreases d,
    {
        pegs[0].push(d);
        d -= 1;
        proof {
            assert(pegs@[0]@ =~= Seq::new((n - d) as nat, |i: int| (n - i) as u32));
        }
    }
    let ghost start = peg_contents(pegs@);
    proof {
        assert(start[0] =~= tower(n as nat));
        assert(start[0] =~= Seq::<u32>::empty() + tower(n as nat));
        lemma_hanoi_play(n as nat, 1, 3, 2, start, Seq::<u32>::empty());
        lemma_hanoi_pegs(n as nat, 1, 3, 2);
        assert(replay(start, h.take(0)) == start) by {
            assert(h.take(0).len() == 0);
        }
    }

    // Where the smallest disk goes next, by peg index.
    let next_small: [usize; 3] = if n % 2 == 0 {
        [1, 2, 0]
    } else {
        [2, 0, 1]
    };
    let mut small: usize = 0;
    let mut step: u64 = 1;
    while step <= total
        invariant
            n < 32,
            total as int + 1 == vstd::arithmetic::power2::pow2(n as nat),
            total < 0x1_0000_0000,
            h == hanoi(n as nat, 1, 3, 2),
            h.len() == total,
            1 <= step <= total + 1,
            moves@ == h.take(step - 1),
            pegs.len() == 3,
            peg_contents(pegs@) == replay(start, moves@),
            sound_pegs(peg_contents(pegs@)),
            small < 3,
            step <= total ==> pegs@[small as int]@.len() > 0 && pegs@[small as int]@.last() == 1,
            forall|p: int|
                0 <= p < 3 ==> next_small[p] + 1 == next_peg(n as nat, 1, 3, 2, (p + 1) as u8),
            next_small[0] < 3 && next_small[1] < 3 && next_small[2] < 3,
            forall|i: int| 0 <= i < h.len() ==> #[trigger] parity_step(start, h, i, n as nat, 1, 3, 2),
            forall|i: int|
                0 <= i < h.len() ==> {
                    let mv = #[trigger] h[i];
                    1 <= mv.0 <= 3 && 1 <= mv.1 <= 3
                },
        decreases total + 1 - step,
    {
        let ghost t = (step - 1) as int;
        let ghost before = peg_contents(pegs@);
        proof {
            assert(parity_step(start, h, t, n as nat, 1, 3, 2));
            assert(h.take(t) == moves@);
            assert(h.take(t + 1) =~= moves@.push(h[t]));
            assert(h[t].0 <= 3 && h[t].1 <= 3);
        }
        if step % 2 == 1 {
            // Odd step: the smallest disk moves on along its cycle.
            let to = next_small[small];
            proof {
                let mv = h[t];
                assert(before[mv.0 as int - 1].last() == 1);
                assert(before[small as int].last() == 1);
                if mv.0 as int - 1 != small as int {
                    assert(before[mv.0 as int - 1][before[mv.0 as int - 1].len() - 1]
                        != before[small as int][before[small as int].len() - 1]);
                }
                assert(mv == ((small + 1) as u8, (to + 1) as u8));
            }
            let disk = pegs[small].pop().unwrap();
            pegs[to].push(disk);
            moves.push(((small + 1) as u8, (to + 1) as u8));
            proof {
                assert(peg_contents(pegs@) =~= apply_move(before, h[t]));
                lemma_sound_move(before, h[t]);
            }
            small = to;
        } else {
            // Even step: the only legal move between the two other pegs.
            let (a, b): (usize, usize) = if small == 0 {
                (1, 2)
            } else if small == 1 {
                (0, 2)
            } else {
                (0, 1)
            };
            let la = pegs[a].len();
            let lb = pegs[b].len();
            let (from, to): (usize, usize) = if la > 0 && lb > 0 {
                if pegs[a][la - 1] < pegs[b][lb - 1] {
                    (a, b)
                } else {
                    (b, a)
                }
            } else if la > 0 {
                (a, b)
            } else {
                (b, a)
            };
            proof {
                let mv = h[t];
                let x = mv.0 as int - 1;
                let y = mv.1 as int - 1;
                assert(before[x].last() != 1);
                assert(x != small as int);
                assert(before[x].last() >= 1);
                if y == small as int {
                    assert(before[y].last() == 1);
                }
                assert(x != y);
                if la > 0 && lb > 0 {
                    assert(before[a as int][la - 1] != before[b as int][lb - 1]);
                }
                assert(mv == ((from + 1) as u8, (to + 1) as u8));
            }
            let disk = pegs[from].pop().unwrap();
            pegs[to].push(disk);
            moves.push(((from + 1) as u8, (to + 1) as u8));
            proof {
                assert(peg_contents(pegs@) =~= apply_move(before, h[t]));
                lemma_sound_move(before, h[t]);
            }
        }
        proof {
            assert(replay(start, moves@) == apply_move(replay(start, h.take(t)), h[t])) by {
                assert(moves@.drop_last() =~= h.take(t));
            }
        }
        step += 1;
    }
    proof {
        assert(h.take(h.len() as int) =~= h);
    }
    moves
}

} // verus!
