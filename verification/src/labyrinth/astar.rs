//! A* with the Manhattan-distance heuristic: a priority queue ordered by
//! `f = g + h`, where `g` is the steps taken so far and `h` the Manhattan
//! distance to `B`. The heuristic never overestimates and is consistent, so
//! the first time `B` is expanded its path is a shortest one.

use vstd::prelude::*;
use vstd::multiset::Multiset;
use vstd::set_lib::{lemma_int_range, lemma_len_subset, set_int_range};
use crate::max_heap::MaxHeap;
use crate::counting_rooms::lemma_neighbours;
use crate::labyrinth::{
    Maze, SearchResult, reconstruct, step, walk, parent_chain, chain_moves, manhattan_spec, lemma_walk_last,
    lemma_walk_split, lemma_manhattan_walk, lemma_walk_bounds, WALL, UP, DOWN, LEFT, RIGHT,
};

verus! {

broadcast use vstd::multiset::group_multiset_axioms;

/// 2^32: heap keys pack an `f` value above a cell index.
pub open spec fn key_base() -> int {
    4294967296
}

/// The heap key of the entry `(f, v)`: keys are ordered inversely to the
/// pairs `(f, v)` in lexicographic order, so the max-heap hands out the pair
/// with the least `f` (ties broken by the least cell).
pub open spec fn entry_key(f: int, v: int) -> u64 {
    (u64::MAX - (f * key_base() + v)) as u64
}

/// The `f` value of a heap key.
pub open spec fn key_f(k: u64) -> int {
    (u64::MAX - k) / key_base()
}

/// The cell of a heap key.
pub open spec fn key_cell(k: u64) -> int {
    (u64::MAX - k) % key_base()
}

/// Packing and unpacking a pair agree.
pub proof fn lemma_key_roundtrip(f: int, v: int)
    requires
        0 <= f < key_base(),
        0 <= v < key_base(),
    ensures
        key_f(entry_key(f, v)) == f,
        key_cell(entry_key(f, v)) == v,
{
    assert(0 <= f * key_base() + v <= u64::MAX) by (nonlinear_arith)
        requires 0 <= f < 4294967296, 0 <= v < 4294967296;
    vstd::arithmetic::div_mod::lemma_fundamental_div_mod_converse(f * key_base() + v, key_base(), f, v);
}

/// A larger key carries an `f` value no larger.
pub proof fn lemma_key_order(a: u64, b: u64)
    requires
        a >= b,
    ensures
        key_f(a) <= key_f(b),
{
    let x = u64::MAX - a;
    let y = u64::MAX - b;
    assert(x <= y);
    vstd::arithmetic::div_mod::lemma_div_is_ordered(x as int, y as int, key_base());
}

/// The Manhattan distance to the end.
pub open spec fn h(m: int, end: int, v: int) -> int {
    manhattan_spec(m, v, end)
}

/// `g[v]` is set: some path to `v` of that length has been found.
pub open spec fn reached(g: Seq<u32>, v: int) -> bool {
    g[v] < u32::MAX
}

/// The parent pointer of a reached cell other than the start leads to a
/// reached neighbour with a strictly smaller `g`.
pub open spec fn astar_parent_ok(cells: Seq<u8>, m: int, g: Seq<u32>, parent: Seq<u32>, came: Seq<u8>, v: int) -> bool {
    &&& (parent[v] as int) < cells.len()
    &&& reached(g, parent[v] as int)
    &&& g[parent[v] as int] < g[v]
    &&& step(m, cells.len() as int, parent[v] as int, came[v]) == v
    &&& cells[v] != WALL
}

/// No legal path to `v` is shorter than `g[v]`.
pub open spec fn settled(cells: Seq<u8>, m: int, start: int, g: Seq<u32>, v: int) -> bool {
    &&& reached(g, v)
    &&& forall|q: Seq<u8>| #[trigger] walk(cells, m, start, q) == v ==> g[v] <= q.len()
}

/// Every open neighbour of `v` has `g` at most `g[v] + 1`.
pub open spec fn relaxed(cells: Seq<u8>, m: int, g: Seq<u32>, v: int) -> bool {
    forall|c: u8| 0 <= #[trigger] step(m, cells.len() as int, v, c) < cells.len()
        && cells[step(m, cells.len() as int, v, c)] != WALL
        ==> g[step(m, cells.len() as int, v, c)] <= g[v] + 1
}

/// A heap key names a reached cell and an `f` no smaller than its current
/// `g + h`.
pub open spec fn entry_ok(cells: Seq<u8>, m: int, end: int, g: Seq<u32>, k: u64) -> bool {
    &&& 0 <= key_cell(k) < cells.len()
    &&& reached(g, key_cell(k))
    &&& key_f(k) >= g[key_cell(k)] + h(m, end, key_cell(k))
}

/// The current key of a reached cell.
pub open spec fn live_key(m: int, end: int, g: Seq<u32>, v: int) -> u64 {
    entry_key(g[v] + h(m, end, v), v)
}

/// The state of A*: `closed` are the cells expanded so far, `pending` the one
/// being expanded (or -1). Parent pointers are sound; closed cells are
/// settled and (but for the pending one) relaxed; every reached cell that is
/// not closed has its current key in the heap, exactly once; closed cells have
/// none; every key in the heap is sound; and every `g` is at most the number
/// of expansions.
pub open spec fn astar_inv(
    cells: Seq<u8>, m: int, start: int, end: int,
    g: Seq<u32>, parent: Seq<u32>, came: Seq<u8>,
    heap: Multiset<u64>, closed: Set<int>, pending: int, expanded: int,
) -> bool {
    let size = cells.len() as int;
    &&& g.len() == size
    &&& parent.len() == size
    &&& came.len() == size
    &&& m > 0
    &&& 0 <= start < size
    &&& 0 <= end < size
    &&& size <= usize::MAX
    &&& forall|v: int| 0 <= v < size ==> #[trigger] h(m, end, v) + size + 1 < u32::MAX
    &&& g[start] == 0
    &&& closed.finite()
    &&& forall|v: int| #[trigger] closed.contains(v) ==> 0 <= v < size
    &&& expanded == closed.len()
    &&& forall|v: int| 0 <= v < size && reached(g, v) ==> #[trigger] g[v] <= expanded
    &&& forall|v: int| 0 <= v < size && reached(g, v) && v != start ==> #[trigger] astar_parent_ok(cells, m, g, parent, came, v)
    &&& forall|v: int| #[trigger] closed.contains(v) ==> settled(cells, m, start, g, v)
    &&& forall|v: int| #[trigger] closed.contains(v) && v != pending ==> relaxed(cells, m, g, v)
    &&& forall|k: u64| #[trigger] heap.contains(k) ==> entry_ok(cells, m, end, g, k)
    &&& forall|v: int| 0 <= v < size && reached(g, v) && !closed.contains(v) ==> heap.contains(#[trigger] live_key(m, end, g, v))
    &&& forall|v: int| 0 <= v < size && reached(g, v) && closed.contains(v) ==> heap.count(#[trigger] live_key(m, end, g, v)) == 0
    &&& forall|v: int| 0 <= v < size && reached(g, v) ==> heap.count(#[trigger] live_key(m, end, g, v)) <= 1
    &&& (pending >= 0 ==> closed.contains(pending) && g[pending] < expanded)
}

/// The closed cells are at most all the cells.
proof fn lemma_closed_bound(closed: Set<int>, size: int)
    requires
        size >= 0,
        forall|v: int| #[trigger] closed.contains(v) ==> 0 <= v < size,
    ensures
        closed.finite(),
        closed.len() <= size,
{
    lemma_int_range(0, size);
    lemma_len_subset(closed, set_int_range(0, size));
}

/// Following the parent pointers of a reached cell gives a legal walk from
/// the start, of at most `g` moves.
proof fn lemma_astar_chain(
    cells: Seq<u8>, m: int, start: int, g: Seq<u32>, parent: Seq<u32>, came: Seq<u8>, v: int,
) -> (k: nat)
    requires
        g.len() == cells.len(),
        parent.len() == cells.len(),
        came.len() == cells.len(),
        0 <= start < cells.len(),
        g[start] == 0,
        forall|x: int| 0 <= x < cells.len() && reached(g, x) && x != start ==> #[trigger] astar_parent_ok(cells, m, g, parent, came, x),
        0 <= v < cells.len(),
        reached(g, v),
    ensures
        k <= g[v],
        parent_chain(parent, start, v, k),
        chain_moves(parent, came, v, k).len() == k,
        walk(cells, m, start, chain_moves(parent, came, v, k)) == v,
    decreases g[v],
{
    if v == start {
        0
    } else {
        assert(astar_parent_ok(cells, m, g, parent, came, v));
        let u = parent[v] as int;
        let k1 = lemma_astar_chain(cells, m, start, g, parent, came, u);
        let p = chain_moves(parent, came, v, k1 + 1);
        assert(p.drop_last() =~= chain_moves(parent, came, u, k1));
        k1 + 1
    }
}

/// The first `j` moves of `q` lead to a reached cell with `g` at most `j`.
spec fn prefix_good(cells: Seq<u8>, m: int, start: int, g: Seq<u32>, q: Seq<u8>, j: int) -> bool {
    let u = walk(cells, m, start, q.take(j));
    &&& 0 <= u < cells.len()
    &&& reached(g, u)
    &&& g[u] <= j
}

proof fn lemma_first_violation(cells: Seq<u8>, m: int, start: int, g: Seq<u32>, q: Seq<u8>, j: int) -> (i: int)
    requires
        0 <= j <= q.len(),
        prefix_good(cells, m, start, g, q, j),
        !prefix_good(cells, m, start, g, q, q.len() as int),
    ensures
        j <= i < q.len(),
        prefix_good(cells, m, start, g, q, i),
        !prefix_good(cells, m, start, g, q, i + 1),
    decreases q.len() - j,
{
    if j == q.len() {
        j
    } else if !prefix_good(cells, m, start, g, q, j + 1) {
        j
    } else {
        lemma_first_violation(cells, m, start, g, q, j + 1)
    }
}

/// The frontier argument: while some legal path `q` reaches a cell more
/// cheaply than its `g`, the heap holds a key whose `f` is at most
/// `|q| + h(end of q)`.
proof fn lemma_frontier(
    cells: Seq<u8>, m: int, start: int, end: int,
    g: Seq<u32>, parent: Seq<u32>, came: Seq<u8>,
    heap: Multiset<u64>, closed: Set<int>, expanded: int, q: Seq<u8>,
)
    requires
        astar_inv(cells, m, start, end, g, parent, came, heap, closed, -1, expanded),
        walk(cells, m, start, q) >= 0,
        !(reached(g, walk(cells, m, start, q)) && g[walk(cells, m, start, q)] <= q.len()),
    ensures
        exists|k: u64| #[trigger] heap.contains(k) && key_f(k) <= q.len() + h(m, end, walk(cells, m, start, q)),
{
    let size = cells.len() as int;
    let w = walk(cells, m, start, q);
    lemma_walk_bounds(cells, m, start, q);
    assert(q.take(0) =~= Seq::<u8>::empty());
    assert(q.take(q.len() as int) =~= q);
    assert(prefix_good(cells, m, start, g, q, 0));
    let j = lemma_first_violation(cells, m, start, g, q, 0);
    lemma_walk_split(cells, m, start, q, j);
    lemma_walk_split(cells, m, start, q, j + 1);
    let u = walk(cells, m, start, q.take(j));
    let v = walk(cells, m, start, q.take(j + 1));
    assert(q.take(j + 1).drop_last() =~= q.take(j));
    lemma_walk_last(cells, m, start, q.take(j + 1));
    assert(q.take(j + 1).last() == q[j]);
    assert(v == step(m, size, u, q[j]));
    lemma_closed_bound(closed, size);
    assert(g[u] <= expanded);
    if closed.contains(u) {
        assert(relaxed(cells, m, g, u));
        assert(0 <= v < size);
        assert(g[v] <= g[u] + 1);
        assert(h(m, end, u) + size + 1 < u32::MAX);
        assert(reached(g, v));
        assert(prefix_good(cells, m, start, g, q, j + 1));
    }
    let k = live_key(m, end, g, u);
    assert(heap.contains(k));
    lemma_manhattan_walk(cells, m, u, q.skip(j), end);
    assert(h(m, end, u) + size < u32::MAX);
    lemma_key_roundtrip(g[u] + h(m, end, u), u);
    assert(key_f(k) <= q.len() + h(m, end, w));
}

/// While the end is open, the best key on the heap has an `f` no larger than
/// the length of any legal path to the end.
proof fn lemma_pop_within(
    cells: Seq<u8>, m: int, start: int, end: int,
    g: Seq<u32>, parent: Seq<u32>, came: Seq<u8>,
    heap: Multiset<u64>, closed: Set<int>, expanded: int, k: u64, q: Seq<u8>,
)
    requires
        astar_inv(cells, m, start, end, g, parent, came, heap, closed, -1, expanded),
        !closed.contains(end),
        heap.contains(k),
        forall|y: u64| heap.contains(y) ==> y <= k,
        walk(cells, m, start, q) == end,
    ensures
        key_f(k) <= q.len(),
{
    assert(h(m, end, end) == 0);
    if !(reached(g, end) && g[end] <= q.len()) {
        lemma_frontier(cells, m, start, end, g, parent, came, heap, closed, expanded, q);
        let k2 = choose|k2: u64| #[trigger] heap.contains(k2) && key_f(k2) <= q.len() + h(m, end, walk(cells, m, start, q));
        lemma_key_order(k, k2);
    } else {
        let kl = live_key(m, end, g, end);
        assert(heap.contains(kl));
        assert(h(m, end, end) + cells.len() + 1 < u32::MAX);
        lemma_key_roundtrip(g[end] + h(m, end, end), end);
        lemma_key_order(k, kl);
    }
}

/// Every cell that some legal path reaches with a total `|q| + h` below the
/// best key's `f` is already closed.
proof fn lemma_pop_closer(
    cells: Seq<u8>, m: int, start: int, end: int,
    g: Seq<u32>, parent: Seq<u32>, came: Seq<u8>,
    heap: Multiset<u64>, closed: Set<int>, expanded: int, k: u64, q: Seq<u8>,
)
    requires
        astar_inv(cells, m, start, end, g, parent, came, heap, closed, -1, expanded),
        heap.contains(k),
        forall|y: u64| heap.contains(y) ==> y <= k,
        walk(cells, m, start, q) >= 0,
        q.len() + h(m, end, walk(cells, m, start, q)) < key_f(k),
    ensures
        closed.contains(walk(cells, m, start, q)),
{
    let v = walk(cells, m, start, q);
    lemma_walk_bounds(cells, m, start, q);
    if !closed.contains(v) {
        if !(reached(g, v) && g[v] <= q.len()) {
            lemma_frontier(cells, m, start, end, g, parent, came, heap, closed, expanded, q);
            let k2 = choose|k2: u64| #[trigger] heap.contains(k2) && key_f(k2) <= q.len() + h(m, end, walk(cells, m, start, q));
            lemma_key_order(k, k2);
        } else {
            let kl = live_key(m, end, g, v);
            assert(heap.contains(kl));
            assert(h(m, end, v) + cells.len() + 1 < u32::MAX);
            lemma_key_roundtrip(g[v] + h(m, end, v), v);
            lemma_key_order(k, kl);
        }
    }
}

/// Every key is the packing of its own `f` and cell.
proof fn lemma_key_split(k: u64)
    ensures
        0 <= key_f(k) < key_base(),
        0 <= key_cell(k) < key_base(),
        entry_key(key_f(k), key_cell(k)) == k,
{
    let x = (u64::MAX - k) as int;
    vstd::arithmetic::div_mod::lemma_fundamental_div_mod(x, key_base());
    assert(x == key_f(k) * key_base() + key_cell(k)) by {
        vstd::arithmetic::mul::lemma_mul_is_commutative(key_base(), key_f(k));
    }
    assert(key_f(k) < key_base()) by (nonlinear_arith)
        requires x == key_f(k) * 4294967296 + key_cell(k), 0 <= key_cell(k), x <= u64::MAX, x >= 0;
    assert(key_f(k) >= 0) by (nonlinear_arith)
        requires x == key_f(k) * 4294967296 + key_cell(k), key_cell(k) < 4294967296, x >= 0;
}

/// The search begins with only the start reached, its key in the heap.
proof fn lemma_astar_begin(cells: Seq<u8>, m: int, start: int, end: int, g: Seq<u32>, parent: Seq<u32>, came: Seq<u8>)
    requires
        g.len() == cells.len(),
        parent.len() == cells.len(),
        came.len() == cells.len(),
        m > 0,
        0 <= start < cells.len(),
        0 <= end < cells.len(),
        cells.len() <= usize::MAX,
        forall|v: int| 0 <= v < cells.len() ==> #[trigger] h(m, end, v) + cells.len() + 1 < u32::MAX,
        forall|v: int| 0 <= v < cells.len() ==> g[v] == if v == start { 0 } else { u32::MAX },
    ensures
        astar_inv(cells, m, start, end, g, parent, came, Multiset::empty().insert(entry_key(h(m, end, start), start)),
            Set::empty(), -1, 0),
{
    let heap = Multiset::<u64>::empty().insert(entry_key(h(m, end, start), start));
    assert(h(m, end, start) + cells.len() + 1 < u32::MAX);
    lemma_key_roundtrip(h(m, end, start), start);
    assert(live_key(m, end, g, start) == entry_key(h(m, end, start), start));
    assert forall|k: u64| #[trigger] heap.contains(k) implies entry_ok(cells, m, end, g, k) by {
        assert(k == entry_key(h(m, end, start), start));
    }
    assert(Set::<int>::empty().len() == 0);
}

/// Taking the largest key off the heap: a stale key (whose `f` exceeds its
/// cell's current `g + h`) is dropped; otherwise its cell is not yet closed,
/// is settled, and becomes the pending cell.
proof fn lemma_astar_pop(
    cells: Seq<u8>, m: int, start: int, end: int,
    g: Seq<u32>, parent: Seq<u32>, came: Seq<u8>,
    heap: Multiset<u64>, closed: Set<int>, expanded: int, k: u64,
)
    requires
        astar_inv(cells, m, start, end, g, parent, came, heap, closed, -1, expanded),
        heap.contains(k),
        forall|y: u64| heap.contains(y) ==> y <= k,
    ensures
        0 <= key_cell(k) < cells.len(),
        reached(g, key_cell(k)),
        key_f(k) >= g[key_cell(k)] + h(m, end, key_cell(k)),
        key_f(k) > g[key_cell(k)] + h(m, end, key_cell(k))
            ==> astar_inv(cells, m, start, end, g, parent, came, heap.remove(k), closed, -1, expanded),
        key_f(k) == g[key_cell(k)] + h(m, end, key_cell(k)) ==> {
            &&& !closed.contains(key_cell(k))
            &&& astar_inv(cells, m, start, end, g, parent, came, heap.remove(k), closed.insert(key_cell(k)),
                key_cell(k), expanded + 1)
        },
{
    let size = cells.len() as int;
    let cur = key_cell(k);
    assert(entry_ok(cells, m, end, g, k));
    lemma_key_split(k);
    let h2 = heap.remove(k);
    lemma_closed_bound(closed, size);
    if key_f(k) > g[cur] + h(m, end, cur) {
        assert(live_key(m, end, g, cur) != k);
        assert forall|v: int| 0 <= v < size && reached(g, v) && !closed.contains(v) implies h2.contains(#[trigger] live_key(m, end, g, v)) by {
            assert(heap.contains(live_key(m, end, g, v)));
            if live_key(m, end, g, v) == k {
                assert(h(m, end, v) + size + 1 < u32::MAX);
                lemma_key_roundtrip(g[v] + h(m, end, v), v);
            }
        }
        assert forall|kk: u64| #[trigger] h2.contains(kk) implies entry_ok(cells, m, end, g, kk) by {
            assert(heap.contains(kk));
        }
    } else {
        assert(k == live_key(m, end, g, cur));
        assert(heap.count(k) >= 1);
        assert(!closed.contains(cur));
        let c2 = closed.insert(cur);
        assert forall|q: Seq<u8>| #[trigger] walk(cells, m, start, q) == cur implies g[cur] <= q.len() by {
            if !(g[cur] <= q.len()) {
                lemma_frontier(cells, m, start, end, g, parent, came, heap, closed, expanded, q);
                let k2 = choose|k2: u64| #[trigger] heap.contains(k2) && key_f(k2) <= q.len() + h(m, end, walk(cells, m, start, q));
                lemma_key_order(k, k2);
            }
        }
        assert(settled(cells, m, start, g, cur));
        assert forall|v: int| 0 <= v < size && reached(g, v) && !c2.contains(v) implies h2.contains(#[trigger] live_key(m, end, g, v)) by {
            assert(heap.contains(live_key(m, end, g, v)));
            if live_key(m, end, g, v) == k {
                assert(h(m, end, v) + size + 1 < u32::MAX);
                lemma_key_roundtrip(g[v] + h(m, end, v), v);
            }
        }
        assert forall|v: int| 0 <= v < size && reached(g, v) && c2.contains(v) implies h2.count(#[trigger] live_key(m, end, g, v)) == 0 by {
            if v != cur {
                assert(closed.contains(v));
                assert(heap.count(live_key(m, end, g, v)) == 0);
            } else {
                assert(heap.count(k) <= 1);
            }
        }
        assert forall|kk: u64| #[trigger] h2.contains(kk) implies entry_ok(cells, m, end, g, kk) by {
            assert(heap.contains(kk));
        }
        assert forall|v: int| #[trigger] c2.contains(v) implies settled(cells, m, start, g, v) by {
            if v != cur {
                assert(closed.contains(v));
            }
        }
        assert forall|v: int| #[trigger] c2.contains(v) && v != cur implies relaxed(cells, m, g, v) by {
            assert(closed.contains(v));
        }
        assert(c2.len() == closed.len() + 1);
    }
}

/// Giving the open neighbour `nb = step(cur, c)` of the pending cell the
/// shorter path through `cur` keeps the invariant.
proof fn lemma_astar_relax(
    cells: Seq<u8>, m: int, start: int, end: int,
    g: Seq<u32>, parent: Seq<u32>, came: Seq<u8>,
    heap: Multiset<u64>, closed: Set<int>, cur: int, expanded: int, c: u8,
)
    requires
        astar_inv(cells, m, start, end, g, parent, came, heap, closed, cur, expanded),
        cells.len() <= u32::MAX,
        cur >= 0,
        0 <= step(m, cells.len() as int, cur, c) < cells.len(),
        cells[step(m, cells.len() as int, cur, c)] != WALL,
        g[cur] + 1 < g[step(m, cells.len() as int, cur, c)],
    ensures ({
        let nb = step(m, cells.len() as int, cur, c);
        let ng = g[cur] + 1;
        &&& ng + h(m, end, nb) < u32::MAX
        &&& astar_inv(cells, m, start, end, g.update(nb, ng as u32), parent.update(nb, cur as u32), came.update(nb, c),
            heap.insert(entry_key(ng + h(m, end, nb), nb)), closed, cur, expanded)
    }),
{
    let size = cells.len() as int;
    let nb = step(m, size, cur, c);
    let ng = g[cur] + 1;
    let g2 = g.update(nb, ng as u32);
    let p2 = parent.update(nb, cur as u32);
    let c2 = came.update(nb, c);
    let nk = entry_key(ng + h(m, end, nb), nb);
    let heap2 = heap.insert(nk);
    lemma_closed_bound(closed, size);
    assert(h(m, end, nb) + size + 1 < u32::MAX);
    lemma_key_roundtrip(ng + h(m, end, nb), nb);
    // nb is not closed: a path through cur would beat its settled g.
    if closed.contains(nb) {
        let k0 = lemma_astar_chain(cells, m, start, g, parent, came, cur);
        let p = chain_moves(parent, came, cur, k0).push(c);
        assert(p.drop_last() =~= chain_moves(parent, came, cur, k0));
        assert(walk(cells, m, start, p) == nb);
        assert(settled(cells, m, start, g, nb));
    }
    assert(!closed.contains(nb));
    assert(nb != cur);
    assert forall|v: int| 0 <= v < size && reached(g2, v) && v != start implies #[trigger] astar_parent_ok(cells, m, g2, p2, c2, v) by {
        if v != nb {
            assert(astar_parent_ok(cells, m, g, parent, came, v));
        }
    }
    assert forall|v: int| 0 <= v < size && reached(g2, v) implies #[trigger] g2[v] <= expanded by {
        if v != nb {
            assert(g[v] <= expanded);
        }
    }
    assert forall|v: int| #[trigger] closed.contains(v) implies settled(cells, m, start, g2, v) by {
        assert(settled(cells, m, start, g, v));
        assert(v != nb);
    }
    assert forall|v: int| #[trigger] closed.contains(v) && v != cur implies relaxed(cells, m, g2, v) by {
        assert(relaxed(cells, m, g, v));
        assert(v != nb);
        assert forall|cc: u8| 0 <= #[trigger] step(m, size, v, cc) < size && cells[step(m, size, v, cc)] != WALL
            implies g2[step(m, size, v, cc)] <= g2[v] + 1 by {
        }
    }
    assert forall|kk: u64| #[trigger] heap2.contains(kk) implies entry_ok(cells, m, end, g2, kk) by {
        if kk != nk {
            assert(heap.contains(kk));
            assert(entry_ok(cells, m, end, g, kk));
        }
    }
    assert(heap.count(nk) == 0) by {
        if heap.contains(nk) {
            assert(entry_ok(cells, m, end, g, nk));
        }
    }
    assert(live_key(m, end, g2, nb) == nk);
    assert forall|v: int| 0 <= v < size && reached(g2, v) && !closed.contains(v) implies heap2.contains(#[trigger] live_key(m, end, g2, v)) by {
        if v != nb {
            assert(live_key(m, end, g2, v) == live_key(m, end, g, v));
            assert(heap.contains(live_key(m, end, g, v)));
        }
    }
    assert forall|v: int| 0 <= v < size && reached(g2, v) && closed.contains(v) implies heap2.count(#[trigger] live_key(m, end, g2, v)) == 0 by {
        assert(v != nb);
        assert(live_key(m, end, g2, v) == live_key(m, end, g, v));
        assert(heap.count(live_key(m, end, g, v)) == 0);
        assert(h(m, end, v) + size + 1 < u32::MAX);
        lemma_key_roundtrip(g[v] + h(m, end, v), v);
    }
    assert forall|v: int| 0 <= v < size && reached(g2, v) implies heap2.count(#[trigger] live_key(m, end, g2, v)) <= 1 by {
        if v != nb {
            assert(live_key(m, end, g2, v) == live_key(m, end, g, v));
            assert(heap.count(live_key(m, end, g, v)) <= 1);
            assert(h(m, end, v) + size + 1 < u32::MAX);
            lemma_key_roundtrip(g[v] + h(m, end, v), v);
        }
    }
}

/// Once the pending cell is relaxed it needs no further expansion.
proof fn lemma_astar_settle(
    cells: Seq<u8>, m: int, start: int, end: int,
    g: Seq<u32>, parent: Seq<u32>, came: Seq<u8>,
    heap: Multiset<u64>, closed: Set<int>, cur: int, expanded: int,
)
    requires
        astar_inv(cells, m, start, end, g, parent, came, heap, closed, cur, expanded),
        relaxed(cells, m, g, cur),
    ensures
        astar_inv(cells, m, start, end, g, parent, came, heap, closed, -1, expanded),
{
}

/// With the heap empty every reached cell is closed, and every legal walk
/// from the start ends at a reached cell.
proof fn lemma_astar_exhausted_walk(
    cells: Seq<u8>, m: int, start: int, end: int,
    g: Seq<u32>, parent: Seq<u32>, came: Seq<u8>,
    closed: Set<int>, expanded: int, q: Seq<u8>,
)
    requires
        astar_inv(cells, m, start, end, g, parent, came, Multiset::empty(), closed, -1, expanded),
        walk(cells, m, start, q) >= 0,
    ensures
        closed.contains(walk(cells, m, start, q)),
    decreases q.len(),
{
    let size = cells.len() as int;
    let w = walk(cells, m, start, q);
    lemma_walk_bounds(cells, m, start, q);
    lemma_closed_bound(closed, size);
    if q.len() == 0 {
        assert(reached(g, start));
    } else {
        lemma_walk_last(cells, m, start, q);
        lemma_astar_exhausted_walk(cells, m, start, end, g, parent, came, closed, expanded, q.drop_last());
        let u = walk(cells, m, start, q.drop_last());
        assert(relaxed(cells, m, g, u));
        assert(g[w] <= g[u] + 1);
        assert(g[u] <= expanded);
        assert(h(m, end, u) + size + 1 < u32::MAX);
        assert(reached(g, w));
    }
    if !closed.contains(w) {
        assert(Multiset::<u64>::empty().contains(live_key(m, end, g, w)));
    }
}

/// The Manhattan distance between two cells is less than the rows plus the
/// columns.
proof fn lemma_manhattan_bound(n: int, m: int, a: int, b: int)
    requires
        m > 0,
        0 <= a < n * m,
        0 <= b < n * m,
    ensures
        manhattan_spec(m, a, b) <= n + m - 2,
{
    assert(a / m < n && b / m < n) by (nonlinear_arith)
        requires 0 <= a < n * m, 0 <= b < n * m, m > 0;
    assert(0 <= a / m && 0 <= b / m) by (nonlinear_arith)
        requires 0 <= a, 0 <= b, m > 0;
}

/// The greatest key in the heap: the entry with the least `(f, cell)`.
pub open spec fn top_key(hp: Multiset<u64>) -> u64 {
    choose|k: u64| hp.contains(k) && forall|y: u64| hp.contains(y) ==> y <= k
}

/// Offering the neighbour of `cur` by move `c`: when it is inside the grid,
/// open, and one more move than `g[cur]` beats its `g`, that becomes its
/// `g` and the entry `(g + h, neighbour)` joins the heap.
#[verifier::opaque]
pub open spec fn relax_spec(
    cells: Seq<u8>, m: int, end: int, g: Seq<u32>, hp: Multiset<u64>, cur: int, c: u8,
) -> (Seq<u32>, Multiset<u64>) {
    let v = step(m, cells.len() as int, cur, c);
    let ng = g[cur] + 1;
    if 0 <= v < cells.len() && cells[v] != WALL && ng < g[v] {
        (g.update(v, ng as u32), hp.insert(entry_key(ng + h(m, end, v), v)))
    } else {
        (g, hp)
    }
}

/// Expanding `cur`: its neighbours up, down, left and right are offered in
/// that order.
pub open spec fn expand_spec(
    cells: Seq<u8>, m: int, end: int, g: Seq<u32>, hp: Multiset<u64>, cur: int,
) -> (Seq<u32>, Multiset<u64>) {
    let s1 = relax_spec(cells, m, end, g, hp, cur, UP);
    let s2 = relax_spec(cells, m, end, s1.0, s1.1, cur, DOWN);
    let s3 = relax_spec(cells, m, end, s2.0, s2.1, cur, LEFT);
    relax_spec(cells, m, end, s3.0, s3.1, cur, RIGHT)
}

/// The search state: the best known path lengths, the heap, the cells
/// expanded, and whether the end has been expanded.
pub type AstarState = (Seq<u32>, Multiset<u64>, nat, bool);

/// One entry taken off the heap: a stale entry (its `f` above the current
/// `g + h` of its cell) is dropped; otherwise its cell is expanded, which
/// ends the search at the end cell. Once the end is expanded or the heap is
/// empty, nothing changes.
#[verifier::opaque]
pub open spec fn astar_step(cells: Seq<u8>, m: int, end: int, st: AstarState) -> AstarState {
    let (g, hp, e, found) = st;
    if found || hp.len() == 0 {
        st
    } else {
        let k = top_key(hp);
        let rest = hp.remove(k);
        let cur = key_cell(k);
        if key_f(k) <= g[cur] + h(m, end, cur) {
            if cur == end {
                (g, rest, e + 1, true)
            } else {
                let (g2, hp2) = expand_spec(cells, m, end, g, rest, cur);
                (g2, hp2, e + 1, false)
            }
        } else {
            (g, rest, e, false)
        }
    }
}

/// The search state after `t` entries have been taken off the heap,
/// starting from `g = 0` at the start and the single entry `(h, start)`.
pub open spec fn astar_run(cells: Seq<u8>, m: int, start: int, end: int, t: nat) -> AstarState
    decreases t,
{
    if t == 0 {
        (
            Seq::new(cells.len(), |i: int| if i == start { 0u32 } else { u32::MAX }),
            Multiset::empty().insert(entry_key(h(m, end, start), start)),
            0,
            false,
        )
    } else {
        astar_step(cells, m, end, astar_run(cells, m, start, end, (t - 1) as nat))
    }
}

/// One step of the search, taking off the greatest key `x`, by cases.
proof fn lemma_step_cases(cells: Seq<u8>, m: int, end: int, st: AstarState, x: u64)
    requires
        !st.3,
        st.1.contains(x),
        forall|y: u64| st.1.contains(y) ==> y <= x,
    ensures
        ({
            let nx = astar_step(cells, m, end, st);
            let rest = st.1.remove(x);
            let cur = key_cell(x);
            if key_f(x) <= st.0[cur] + h(m, end, cur) {
                if cur == end {
                    nx == (st.0, rest, st.2 + 1, true)
                } else {
                    let e = expand_spec(cells, m, end, st.0, rest, cur);
                    nx == (e.0, e.1, st.2 + 1, false)
                }
            } else {
                nx == (st.0, rest, st.2, false)
            }
        }),
{
    reveal(astar_step);
    lemma_top_key(st.1, x);
    assert(st.1.len() > 0);
}

/// Offering a cell outside the grid changes nothing.
proof fn lemma_relax_outside(cells: Seq<u8>, m: int, end: int, g: Seq<u32>, hp: Multiset<u64>, cur: int, c: u8)
    requires
        !(0 <= step(m, cells.len() as int, cur, c) < cells.len()),
    ensures
        relax_spec(cells, m, end, g, hp, cur, c) == (g, hp),
{
    reveal(relax_spec);
}

/// Once the end has been expanded or the heap has run dry, the search state
/// stays as it is: every later step gives the same count of expanded cells.
pub proof fn lemma_astar_run_stable(cells: Seq<u8>, m: int, start: int, end: int, t1: nat, t2: nat)
    requires
        t1 <= t2,
        astar_run(cells, m, start, end, t1).3 || astar_run(cells, m, start, end, t1).1.len() == 0,
    ensures
        astar_run(cells, m, start, end, t2) == astar_run(cells, m, start, end, t1),
    decreases t2,
{
    if t2 > t1 {
        lemma_astar_run_stable(cells, m, start, end, t1, (t2 - 1) as nat);
        reveal(astar_step);
    }
}

/// The key a max-heap pop returns is the top key.
proof fn lemma_top_key(hp: Multiset<u64>, x: u64)
    requires
        hp.contains(x),
        forall|y: u64| hp.contains(y) ==> y <= x,
    ensures
        top_key(hp) == x,
{
    let k = top_key(hp);
    assert(k <= x && x <= k);
}

/// The heap key of the entry `(f, v)`.
fn pack_key(f: u32, v: usize) -> (k: u64)
    requires
        v < 4294967296,
    ensures
        k == entry_key(f as int, v as int),
{
    assert((f as u64) * 4294967296 + (v as u64) <= u64::MAX) by (nonlinear_arith)
        requires f < 4294967296, v < 4294967296;
    u64::MAX - ((f as u64) * 4294967296 + (v as u64))
}

/// Offers the neighbour `nidx` of the cell being expanded, entered by move
/// `mv`, the path through it of `ng` moves: when it is open and that beats its
/// current `g`, records the path and queues the neighbour with `f = ng + h`.
fn relax_neighbour(
    maze: &Maze,
    g: &mut Vec<u32>,
    parent: &mut Vec<u32>,
    came: &mut Vec<u8>,
    heap: &mut MaxHeap,
    cur: usize,
    nidx: usize,
    mv: u8,
    ng: u32,
    Ghost(closed): Ghost<Set<int>>,
    Ghost(expanded): Ghost<int>,
)
    requires
        maze.wf(),
        maze.cells.len() <= u32::MAX,
        old(heap).wf(),
        astar_inv(maze.cells@, maze.m as int, maze.start as int, maze.end as int, old(g)@, old(parent)@,
            old(came)@, old(heap)@, closed, cur as int, expanded),
        nidx as int == step(maze.m as int, maze.cells.len() as int, cur as int, mv),
        nidx < maze.cells.len(),
        ng == old(g)@[cur as int] + 1,
    ensures
        final(heap).wf(),
        astar_inv(maze.cells@, maze.m as int, maze.start as int, maze.end as int, final(g)@, final(parent)@,
            final(came)@, final(heap)@, closed, cur as int, expanded),
        maze.cells@[nidx as int] != WALL ==> final(g)@[nidx as int] <= ng,
        final(g)@.len() == old(g)@.len(),
        forall|x: int| 0 <= x < old(g)@.len() ==> final(g)@[x] <= old(g)@[x],
        final(g)@[cur as int] == old(g)@[cur as int],
        final(heap)@.len() <= old(heap)@.len() + 1,
        ({
            let r = relax_spec(maze.cells@, maze.m as int, maze.end as int, old(g)@, old(heap)@, cur as int, mv);
            final(g)@ == r.0 && final(heap)@ == r.1
        }),
{
    proof {
        reveal(relax_spec);
    }
    if !maze.passable(nidx) || ng >= g[nidx] {
        return;
    }
    proof {
        lemma_astar_relax(maze.cells@, maze.m as int, maze.start as int, maze.end as int, g@, parent@, came@,
            heap@, closed, cur as int, expanded, mv);
    }
    g.set(nidx, ng);
    parent.set(nidx, cur as u32);
    came.set(nidx, mv);
    let f = ng + maze.manhattan(nidx);
    heap.push(pack_key(f, nidx));
}

/// A* search from `A`: returns a shortest path to `B`, or none when `B`
/// cannot be reached, and the number of cells expanded.
pub fn solve(maze: &Maze) -> (res: SearchResult)
    requires
        maze.wf(),
        maze.cells.len() + maze.n + maze.m <= u32::MAX,
    ensures
        res.path is Some <==> maze.reachable(),
        res.path matches Some(p) ==> maze.is_shortest_route(p@),
        1 <= res.expanded <= maze.cells.len(),
        res.expanded <= maze.reachable_cells().len(),
        res.path is None ==> res.expanded == maze.reachable_cells().len(),
        res.path matches Some(p) ==> maze.promising_cells(p@.len() - 1).len() < res.expanded
            <= maze.promising_cells(p@.len() as int).len(),
        exists|t: nat| {
            let st = #[trigger] astar_run(maze.cells@, maze.m as int, maze.start as int, maze.end as int, t);
            &&& st.3 || st.1.len() == 0
            &&& st.2 == res.expanded
        },
{
    let size = maze.cells.len();
    let m = maze.m;
    let ghost cells = maze.cells@;
    let ghost mm = m as int;
    let ghost start = maze.start as int;
    let ghost end = maze.end as int;
    assert(m > 0) by (nonlinear_arith)
        requires size == maze.n * m, size > 0;
    let mut g: Vec<u32> = vec![u32::MAX; size];
    let mut parent: Vec<u32> = vec![u32::MAX; size];
    let mut came: Vec<u8> = vec![0u8; size];
    let mut heap = MaxHeap::new();
    g.set(maze.start, 0);
    proof {
        assert forall|v: int| 0 <= v < size implies #[trigger] h(mm, end, v) + size + 1 < u32::MAX by {
            lemma_manhattan_bound(maze.n as int, mm, v, end);
        }
        lemma_astar_begin(cells, mm, start, end, g@, parent@, came@);
    }
    let h0 = maze.manhattan(maze.start);
    heap.push(pack_key(h0, maze.start));
    let mut expanded: u64 = 0;
    let mut found = false;
    let ghost mut closed: Set<int> = Set::empty();
    let ghost mut t: nat = 0;
    proof {
        assert(heap@ =~= Multiset::empty().insert(entry_key(h(mm, end, start), start)));
        assert(g@ =~= astar_run(cells, mm, start, end, 0).0);
    }
    while !found && heap.len() > 0
        invariant
            cells == maze.cells@,
            mm == m,
            m == maze.m,
            start == maze.start,
            end == maze.end,
            size == cells.len(),
            maze.wf(),
            size + maze.n + maze.m <= u32::MAX,
            heap.wf(),
            expanded == closed.len(),
            !found ==> astar_inv(cells, mm, start, end, g@, parent@, came@, heap@, closed, -1, expanded as int),
            !found ==> !closed.contains(end),
            found ==> astar_inv(cells, mm, start, end, g@, parent@, came@, heap@, closed, end, expanded as int),
            forall|v: int, q: Seq<u8>|
                #[trigger] closed.contains(v) && #[trigger] maze.is_route(q) ==> g@[v] + h(mm, end, v) <= q.len(),
            found ==> forall|q: Seq<u8>|
                #![trigger walk(cells, mm, start, q)]
                walk(cells, mm, start, q) >= 0 && q.len() + h(mm, end, walk(cells, mm, start, q)) < g@[end]
                    ==> closed.contains(walk(cells, mm, start, q)),
            astar_run(cells, mm, start, end, t).0 == g@,
            astar_run(cells, mm, start, end, t).1 == heap@,
            astar_run(cells, mm, start, end, t).2 == expanded,
            astar_run(cells, mm, start, end, t).3 == found,
        decreases (if found { 0int } else { 1int }), heap@.len() + 4 * (size - closed.len()),
    {
        let ghost h_before = heap@;
        let ghost st0: AstarState = (g@, h_before, expanded as nat, false);
        let key = heap.pop().unwrap();
        proof {
            lemma_step_cases(cells, mm, end, st0, key);
            assert(st0 == astar_run(cells, mm, start, end, t));
            lemma_closed_bound(closed, size as int);
            lemma_key_split(key);
            lemma_astar_pop(cells, mm, start, end, g@, parent@, came@, h_before, closed, expanded as int, key);
        }
        let x = u64::MAX - key;
        let f = (x / 4294967296) as u32;
        let cur = (x % 4294967296) as usize;
        proof {
            assert(h(mm, end, cur as int) + size + 1 < u32::MAX);
            assert(g@[cur as int] <= expanded);
        }
        let bound = g[cur] + maze.manhattan(cur);
        if f <= bound {
            proof {
                assert forall|q: Seq<u8>| #[trigger] maze.is_route(q) implies g@[cur as int] + h(mm, end, cur as int)
                    <= q.len() by {
                    lemma_pop_within(cells, mm, start, end, g@, parent@, came@, h_before, closed, expanded as int, key, q);
                }
                assert forall|q: Seq<u8>|
                    #![trigger walk(cells, mm, start, q)]
                    walk(cells, mm, start, q) >= 0 && q.len() + h(mm, end, walk(cells, mm, start, q)) < key_f(key)
                        implies closed.contains(walk(cells, mm, start, q)) by {
                    lemma_pop_closer(cells, mm, start, end, g@, parent@, came@, h_before, closed, expanded as int, key, q);
                }
                closed = closed.insert(cur as int);
                lemma_closed_bound(closed, size as int);
            }
            let ghost g0 = g@;
            expanded += 1;
            if cur == maze.end {
                found = true;
            } else {
                let ng = g[cur] + 1;
                let ghost rest = heap@;
                proof {
                    lemma_neighbours(maze.n as int, mm, size as int, cur as int);
                }
                let ghost gb = g@;
                let ghost hb = heap@;
                if cur >= m {
                    relax_neighbour(maze, &mut g, &mut parent, &mut came, &mut heap, cur, cur - m, UP, ng,
                        Ghost(closed), Ghost(expanded as int));
                } else {
                    proof {
                        lemma_relax_outside(cells, mm, end, gb, hb, cur as int, UP);
                    }
                }
                assert(forall|x: int| 0 <= x < size ==> #[trigger] g@[x] <= g0[x]);
                let ghost gb = g@;
                let ghost hb = heap@;
                if m < size - cur {
                    relax_neighbour(maze, &mut g, &mut parent, &mut came, &mut heap, cur, cur + m, DOWN, ng,
                        Ghost(closed), Ghost(expanded as int));
                } else {
                    proof {
                        lemma_relax_outside(cells, mm, end, gb, hb, cur as int, DOWN);
                    }
                }
                assert(forall|x: int| 0 <= x < size ==> #[trigger] g@[x] <= g0[x]);
                let ghost gb = g@;
                let ghost hb = heap@;
                if cur % m > 0 {
                    relax_neighbour(maze, &mut g, &mut parent, &mut came, &mut heap, cur, cur - 1, LEFT, ng,
                        Ghost(closed), Ghost(expanded as int));
                } else {
                    proof {
                        lemma_relax_outside(cells, mm, end, gb, hb, cur as int, LEFT);
                    }
                }
                assert(forall|x: int| 0 <= x < size ==> #[trigger] g@[x] <= g0[x]);
                let ghost gb = g@;
                let ghost hb = heap@;
                if cur % m + 1 < m {
                    relax_neighbour(maze, &mut g, &mut parent, &mut came, &mut heap, cur, cur + 1, RIGHT, ng,
                        Ghost(closed), Ghost(expanded as int));
                } else {
                    proof {
                        lemma_relax_outside(cells, mm, end, gb, hb, cur as int, RIGHT);
                    }
                }
                assert(forall|x: int| 0 <= x < size ==> #[trigger] g@[x] <= g0[x]);
                proof {
                    assert forall|c: u8| 0 <= #[trigger] step(mm, size as int, cur as int, c) < size
                        && cells[step(mm, size as int, cur as int, c)] != WALL
                        implies g@[step(mm, size as int, cur as int, c)] <= g@[cur as int] + 1 by {
                    }
                    assert forall|v: int, q: Seq<u8>| #[trigger] closed.contains(v) && #[trigger] maze.is_route(q)
                        implies g@[v] + h(mm, end, v) <= q.len() by {
                        assert(g0[v] + h(mm, end, v) <= q.len());
                    }
                    assert(relaxed(cells, mm, g@, cur as int));
                    let e = expand_spec(cells, mm, end, g0, rest, cur as int);
                    assert(g@ == e.0 && heap@ == e.1);
                    lemma_astar_settle(cells, mm, start, end, g@, parent@, came@, heap@, closed, cur as int, expanded as int);
                }
            }
        }
        proof {
            t = t + 1;
        }
    }
    let path = if found {
        let ghost k = lemma_astar_chain(cells, mm, start, g@, parent@, came@, end);
        let p = reconstruct(maze.start, maze.end, &parent, &came);
        proof {
            assert(p@ == chain_moves(parent@, came@, end, k));
            assert(maze.is_route(p@));
            assert(settled(cells, mm, start, g@, end));
            assert forall|q: Seq<u8>| #[trigger] maze.is_route(q) implies p@.len() <= q.len() by {
                assert(walk(cells, mm, start, q) == end);
            }
        }
        Some(p)
    } else {
        proof {
            assert(heap@.len() == 0);
            assert(heap@ =~= Multiset::empty());
            assert forall|q: Seq<u8>| !#[trigger] maze.is_route(q) by {
                if walk(cells, mm, start, q) == end {
                    lemma_astar_exhausted_walk(cells, mm, start, end, g@, parent@, came@, closed, expanded as int, q);
                }
            }
        }
        None
    };
    proof {
        lemma_closed_bound(closed, size as int);
        let pending = if found { end } else { -1 };
        assert(astar_inv(cells, mm, start, end, g@, parent@, came@, heap@, closed, pending, expanded as int));
        let reach = maze.reachable_cells();
        maze.lemma_reachable_cells_bound();
        assert forall|v: int| #[trigger] closed.contains(v) implies reach.contains(v) by {
            assert(settled(cells, mm, start, g@, v));
            let k = lemma_astar_chain(cells, mm, start, g@, parent@, came@, v);
            assert(maze.walk_from_start(chain_moves(parent@, came@, v, k)) == v);
        }
        vstd::set_lib::lemma_len_subset(closed, reach);
        if found {
            let pl = path.unwrap()@.len() as int;
            let prom = maze.promising_cells(pl);
            maze.lemma_bounded_sets(pl);
            maze.lemma_bounded_sets(pl - 1);
            let closer = maze.promising_cells(pl - 1);
            assert(maze.is_shortest_route(path.unwrap()@));
            assert(settled(cells, mm, start, g@, end));
            let ke = lemma_astar_chain(cells, mm, start, g@, parent@, came@, end);
            assert(g@[end] == pl) by {
                assert(walk(cells, mm, start, path.unwrap()@) == end);
                assert(maze.is_route(chain_moves(parent@, came@, end, ke)));
            }
            assert forall|v: int| #[trigger] closer.insert(end).contains(v) implies closed.contains(v) by {
                if v != end {
                    let q = choose|q: Seq<u8>|
                        #[trigger] maze.walk_from_start(q) == v && q.len() + manhattan_spec(mm, v, end) <= pl - 1;
                    assert(walk(cells, mm, start, q) == v);
                }
            }
            assert(!closer.contains(end)) by {
                if closer.contains(end) {
                    let q = choose|q: Seq<u8>|
                        #[trigger] maze.walk_from_start(q) == end && q.len() + manhattan_spec(mm, end, end) <= pl - 1;
                    assert(maze.is_route(q));
                }
            }
            vstd::set_lib::lemma_len_subset(closer.insert(end), closed);
            assert forall|v: int| #[trigger] closed.contains(v) implies prom.contains(v) by {
                assert(maze.is_route(path.unwrap()@));
                assert(g@[v] + h(mm, end, v) <= pl);
                assert(settled(cells, mm, start, g@, v));
                let k = lemma_astar_chain(cells, mm, start, g@, parent@, came@, v);
                assert(maze.walk_from_start(chain_moves(parent@, came@, v, k)) == v);
            }
            vstd::set_lib::lemma_len_subset(closed, prom);
        }
        if !found {
            assert(heap@ =~= Multiset::empty());
            assert forall|v: int| #[trigger] reach.contains(v) implies closed.contains(v) by {
                let q = choose|q: Seq<u8>| #[trigger] maze.walk_from_start(q) == v;
                lemma_astar_exhausted_walk(cells, mm, start, end, g@, parent@, came@, closed, expanded as int, q);
            }
            vstd::set_lib::lemma_len_subset(reach, closed);
            assert(reach.contains(start));
        }
    }
    proof {
        let st = astar_run(cells, mm, start, end, t);
        assert(st.3 || st.1.len() == 0);
    }
    SearchResult { path, expanded }
}

} // verus!
