//! Breadth-first search: a FIFO queue expands cells in waves of equal
//! distance from `A`; the first time a wave reaches `B`, that distance is the
//! shortest.

use vstd::prelude::*;
use std::collections::VecDeque;
use crate::counting_rooms::{unvisited, lemma_unvisited_update, lemma_unvisited_none, lemma_neighbours};
use crate::labyrinth::{
    Maze, SearchResult, reconstruct, step, walk, parent_chain, chain_moves, lemma_walk_last, WALL, UP, DOWN,
    LEFT, RIGHT,
};

verus! {

/// The parent pointer of the visited cell `v`: the start has distance 0, and
/// any other visited cell was entered by move `came[v]` from its visited
/// parent, one step closer to the start.
pub open spec fn parent_ok(
    cells: Seq<u8>, m: int, start: int, vis: Seq<bool>, parent: Seq<u32>, came: Seq<u8>, dist: Seq<int>, v: int,
) -> bool {
    &&& dist[v] >= 0
    &&& (dist[v] == 0 <==> v == start)
    &&& (v != start ==> {
        &&& (parent[v] as int) < cells.len()
        &&& vis[parent[v] as int]
        &&& dist[parent[v] as int] == dist[v] - 1
        &&& step(m, cells.len() as int, parent[v] as int, came[v]) == v
        &&& cells[v] != WALL
    })
}

/// Every visited cell has a sound parent pointer.
pub open spec fn parents_ok(
    cells: Seq<u8>, m: int, start: int, vis: Seq<bool>, parent: Seq<u32>, came: Seq<u8>, dist: Seq<int>,
) -> bool {
    forall|v: int| 0 <= v < cells.len() && vis[v] ==> #[trigger] parent_ok(cells, m, start, vis, parent, came, dist, v)
}

/// The queue order after entering the neighbour of `u` by move `c`: the
/// neighbour joins the end when it is inside the grid, open, and not queued
/// before.
pub open spec fn enter(cells: Seq<u8>, m: int, order: Seq<int>, u: int, c: u8) -> Seq<int> {
    let v = step(m, cells.len() as int, u, c);
    if 0 <= v < cells.len() && cells[v] != WALL && !order.contains(v) {
        order.push(v)
    } else {
        order
    }
}

/// The queue order after expanding `u`: its neighbours up, down, left and
/// right, in that order.
pub open spec fn expand_cell(cells: Seq<u8>, m: int, order: Seq<int>, u: int) -> Seq<int> {
    enter(cells, m, enter(cells, m, enter(cells, m, enter(cells, m, order, u, UP), u, DOWN), u, LEFT), u, RIGHT)
}

/// Every cell the search queues, in the order it queues them, once `k`
/// cells have been taken off the queue: the start, then the neighbours
/// entered from each cell taken off, in turn. The `k`-th cell taken off is
/// the `k`-th of this order.
pub open spec fn queue_order(cells: Seq<u8>, m: int, start: int, k: nat) -> Seq<int>
    decreases k,
{
    if k == 0 {
        seq![start]
    } else {
        let o = queue_order(cells, m, start, (k - 1) as nat);
        if k - 1 < o.len() {
            expand_cell(cells, m, o, o[k - 1])
        } else {
            o
        }
    }
}

/// The queue holds the cells of `order` after the first `done`, and a cell
/// is visited iff it appears in `order`.
#[verifier::opaque]
spec fn queue_matches(size: int, order: Seq<int>, done: int, queue: Seq<usize>, vis: Seq<bool>) -> bool {
    &&& done >= 0
    &&& order.len() == done + queue.len()
    &&& forall|i: int| 0 <= i < queue.len() ==> #[trigger] queue[i] as int == order[done + i]
    &&& forall|v: int| 0 <= v < size ==> (vis[v] <==> order.contains(v))
}

/// Taking the head off the queue: it is the next cell of the order.
proof fn lemma_order_pop(size: int, order: Seq<int>, done: int, queue: Seq<usize>, vis: Seq<bool>)
    requires
        queue_matches(size, order, done, queue, vis),
        queue.len() > 0,
    ensures
        queue[0] as int == order[done],
        queue_matches(size, order, done + 1, queue.drop_first(), vis),
        done < order.len(),
{
    reveal(queue_matches);
    assert forall|i: int| 0 <= i < queue.drop_first().len() implies #[trigger] queue.drop_first()[i] as int == order[done + 1 + i] by {
        assert(queue.drop_first()[i] == queue[i + 1]);
    }
}

/// Expanding a cell only adds to the end of the order.
proof fn lemma_expand_prefix(cells: Seq<u8>, m: int, order: Seq<int>, u: int)
    ensures
        expand_cell(cells, m, order, u).len() >= order.len(),
        forall|j: int| 0 <= j < order.len() ==> #[trigger] expand_cell(cells, m, order, u)[j] == order[j],
{
    let o1 = enter(cells, m, order, u, UP);
    let o2 = enter(cells, m, o1, u, DOWN);
    let o3 = enter(cells, m, o2, u, LEFT);
    let o4 = enter(cells, m, o3, u, RIGHT);
    assert forall|j: int| 0 <= j < order.len() implies #[trigger] o4[j] == order[j] by {
        assert(o1[j] == order[j]);
        assert(o2[j] == o1[j]);
        assert(o3[j] == o2[j]);
    }
}

/// The queue order only grows at its end: after more cells are taken off,
/// the cells queued before keep their places.
pub proof fn lemma_queue_order_prefix(cells: Seq<u8>, m: int, start: int, k1: nat, k2: nat)
    requires
        k1 <= k2,
    ensures
        queue_order(cells, m, start, k1).len() <= queue_order(cells, m, start, k2).len(),
        forall|j: int| 0 <= j < queue_order(cells, m, start, k1).len() ==>
            #[trigger] queue_order(cells, m, start, k2)[j] == queue_order(cells, m, start, k1)[j],
    decreases k2,
{
    if k2 > k1 {
        lemma_queue_order_prefix(cells, m, start, k1, (k2 - 1) as nat);
        let o = queue_order(cells, m, start, (k2 - 1) as nat);
        if k2 - 1 < o.len() {
            lemma_expand_prefix(cells, m, o, o[k2 - 1]);
        }
    }
}

/// Following the parent pointers of a visited cell gives a legal walk from
/// the start of length equal to the cell's distance.
pub proof fn lemma_chain_walk(
    cells: Seq<u8>, m: int, start: int, vis: Seq<bool>, parent: Seq<u32>, came: Seq<u8>, dist: Seq<int>, v: int,
)
    requires
        vis.len() == cells.len(),
        parent.len() == cells.len(),
        came.len() == cells.len(),
        0 <= start < cells.len(),
        parents_ok(cells, m, start, vis, parent, came, dist),
        0 <= v < cells.len(),
        vis[v],
    ensures
        parent_chain(parent, start, v, dist[v] as nat),
        chain_moves(parent, came, v, dist[v] as nat).len() == dist[v],
        walk(cells, m, start, chain_moves(parent, came, v, dist[v] as nat)) == v,
    decreases dist[v],
{
    reveal(walk);
    assert(parent_ok(cells, m, start, vis, parent, came, dist, v));
    if v != start {
        let u = parent[v] as int;
        lemma_chain_walk(cells, m, start, vis, parent, came, dist, u);
        let p = chain_moves(parent, came, v, dist[v] as nat);
        assert(p.drop_last() =~= chain_moves(parent, came, u, dist[u] as nat));
    }
}

/// The state of the breadth-first search with `level` the distance of the
/// last cell taken off the queue and `pending` the cell being expanded (or
/// -1): parent pointers are sound, visited distances are shortest, every cell
/// within `level` steps is visited, the queue holds visited cells in order of
/// distance within one of `level`, every visited cell off the queue has its
/// neighbours visited, the end is visited only if queued or pending, and the
/// cells expanded, queued and unvisited add up to the grid.
pub open spec fn bfs_inv(
    cells: Seq<u8>, m: int, start: int, end: int,
    vis: Seq<bool>, parent: Seq<u32>, came: Seq<u8>, dist: Seq<int>,
    level: int, queue: Seq<usize>, pending: int, expanded: int,
) -> bool {
    let size = cells.len() as int;
    &&& vis.len() == size
    &&& size <= usize::MAX
    &&& parent.len() == size
    &&& came.len() == size
    &&& dist.len() == size
    &&& m > 0
    &&& 0 <= start < size
    &&& 0 <= end < size
    &&& vis[start]
    &&& level >= 0
    &&& parents_ok(cells, m, start, vis, parent, came, dist)
    &&& forall|v: int| 0 <= v < size && #[trigger] vis[v] ==> dist[v] <= level + 1
    &&& forall|p: Seq<u8>| #![trigger walk(cells, m, start, p)]
        walk(cells, m, start, p) >= 0 && vis[walk(cells, m, start, p)]
            ==> dist[walk(cells, m, start, p)] <= p.len()
    &&& forall|p: Seq<u8>| #![trigger walk(cells, m, start, p)]
        walk(cells, m, start, p) >= 0 && p.len() <= level ==> vis[walk(cells, m, start, p)]
    &&& forall|k: int| 0 <= k < queue.len() ==> {
        &&& (#[trigger] queue[k] as int) < size
        &&& vis[queue[k] as int]
        &&& level <= dist[queue[k] as int] <= level + 1
    }
    &&& forall|i: int, j: int| 0 <= i < j < queue.len() ==> dist[#[trigger] queue[i] as int] <= dist[#[trigger] queue[j] as int]
    &&& (pending >= 0 ==> 0 <= pending < size && vis[pending] && dist[pending] == level)
    &&& forall|u: int, c: u8|
        0 <= u < size && #[trigger] vis[u] && !queue.contains(u as usize) && u != pending
            && 0 <= #[trigger] step(m, size, u, c) < size && cells[step(m, size, u, c)] != WALL
            ==> vis[step(m, size, u, c)]
    &&& (vis[end] ==> queue.contains(end as usize) || pending == end)
    &&& expanded + queue.len() + unvisited(vis) == size
}

/// The number of unvisited cells is at most the number of cells.
proof fn lemma_unvisited_bound(vis: Seq<bool>)
    ensures
        unvisited(vis) <= vis.len(),
    decreases vis.len(),
{
    if vis.len() > 0 {
        lemma_unvisited_bound(vis.drop_last());
    }
}

/// The search begins with only the start visited and queued.
proof fn lemma_bfs_begin(
    cells: Seq<u8>, m: int, start: int, end: int,
    vis: Seq<bool>, parent: Seq<u32>, came: Seq<u8>, dist: Seq<int>,
)
    requires
        vis.len() == cells.len(),
        parent.len() == cells.len(),
        came.len() == cells.len(),
        dist.len() == cells.len(),
        m > 0,
        0 <= start < cells.len(),
        0 <= end < cells.len(),
        cells.len() <= usize::MAX,
        forall|i: int| 0 <= i < cells.len() ==> (vis[i] <==> i == start),
        dist[start] == 0,
        unvisited(vis) + 1 == cells.len(),
    ensures
        bfs_inv(cells, m, start, end, vis, parent, came, dist, 0, seq![start as usize], -1, 0),
{
    let q = seq![start as usize];
    assert(q[0] == start as usize);
    assert forall|p: Seq<u8>| #![trigger walk(cells, m, start, p)]
        walk(cells, m, start, p) >= 0 && p.len() <= 0 implies vis[walk(cells, m, start, p)] by {
        reveal(walk);
    }
    assert forall|p: Seq<u8>| #![trigger walk(cells, m, start, p)]
        walk(cells, m, start, p) >= 0 && vis[walk(cells, m, start, p)] implies dist[walk(cells, m, start, p)] <= p.len() by {
        reveal(walk);
    }
}

/// Taking the front of the queue makes it the pending cell and its distance
/// the current level.
#[verifier::spinoff_prover]
#[verifier::rlimit(80)]
proof fn lemma_bfs_pop(
    cells: Seq<u8>, m: int, start: int, end: int,
    vis: Seq<bool>, parent: Seq<u32>, came: Seq<u8>, dist: Seq<int>,
    level: int, queue: Seq<usize>, expanded: int,
)
    requires
        bfs_inv(cells, m, start, end, vis, parent, came, dist, level, queue, -1, expanded),
        queue.len() > 0,
    ensures
        bfs_inv(cells, m, start, end, vis, parent, came, dist, dist[queue[0] as int], queue.drop_first(), queue[0] as int, expanded + 1),
        level <= dist[queue[0] as int],
{
    let size = cells.len() as int;
    let cur = queue[0] as int;
    let nl = dist[cur];
    let rest = queue.drop_first();
    assert forall|k: int| 0 <= k < rest.len() implies {
        &&& (#[trigger] rest[k] as int) < size
        &&& vis[rest[k] as int]
        &&& nl <= dist[rest[k] as int] <= nl + 1
    } by {
        assert(rest[k] == queue[k + 1]);
        assert(dist[queue[0] as int] <= dist[queue[k + 1] as int]);
    }
    assert forall|i: int, j: int| 0 <= i < j < rest.len() implies dist[#[trigger] rest[i] as int] <= dist[#[trigger] rest[j] as int] by {
        assert(rest[i] == queue[i + 1]);
        assert(rest[j] == queue[j + 1]);
    }
    if nl > level {
        lemma_bfs_level_up(cells, m, start, end, vis, parent, came, dist, level, queue, expanded);
    }
    assert forall|u: int, c: u8|
        0 <= u < size && #[trigger] vis[u] && !rest.contains(u as usize) && u != cur
            && 0 <= #[trigger] step(m, size, u, c) < size && cells[step(m, size, u, c)] != WALL
            implies vis[step(m, size, u, c)] by {
        if queue.contains(u as usize) {
            let k = choose|k: int| 0 <= k < queue.len() && queue[k] == u as usize;
            if k > 0 {
                assert(rest[k - 1] == u as usize);
            }
        }
    }
    if vis[end] && end != cur {
        let k = choose|k: int| 0 <= k < queue.len() && queue[k] == end as usize;
        assert(k > 0);
        assert(rest[k - 1] == end as usize);
    }
}

/// When the front of the queue lies one level further out, every cell within
/// that further level is visited.
#[verifier::spinoff_prover]
proof fn lemma_bfs_level_up(
    cells: Seq<u8>, m: int, start: int, end: int,
    vis: Seq<bool>, parent: Seq<u32>, came: Seq<u8>, dist: Seq<int>,
    level: int, queue: Seq<usize>, expanded: int,
)
    requires
        bfs_inv(cells, m, start, end, vis, parent, came, dist, level, queue, -1, expanded),
        queue.len() > 0,
        dist[queue[0] as int] == level + 1,
    ensures
        forall|p: Seq<u8>| #![trigger walk(cells, m, start, p)]
            walk(cells, m, start, p) >= 0 && p.len() <= level + 1 ==> vis[walk(cells, m, start, p)],
{
    let size = cells.len() as int;
    assert forall|p: Seq<u8>| #![trigger walk(cells, m, start, p)]
        walk(cells, m, start, p) >= 0 && p.len() <= level + 1 implies vis[walk(cells, m, start, p)] by {
        if p.len() == level + 1 {
            let pre = p.drop_last();
            lemma_walk_last(cells, m, start, p);
            let u = walk(cells, m, start, pre);
            assert(vis[u]);
            assert(dist[u] <= pre.len());
            assert(!queue.contains(u as usize)) by {
                if queue.contains(u as usize) {
                    let k = choose|k: int| 0 <= k < queue.len() && queue[k] == u as usize;
                    if k > 0 {
                        assert(dist[queue[0] as int] <= dist[queue[k] as int]);
                    }
                }
            }
            assert(vis[step(m, size, u, p.last())]);
        }
    }
}

/// Visiting an unvisited open neighbour `nb` of the pending cell, one step
/// further than the current level, and queueing it keeps the invariant.
proof fn lemma_bfs_visit(
    cells: Seq<u8>, m: int, start: int, end: int,
    vis: Seq<bool>, parent: Seq<u32>, came: Seq<u8>, dist: Seq<int>,
    level: int, queue: Seq<usize>, cur: int, expanded: int, c: u8,
)
    requires
        bfs_inv(cells, m, start, end, vis, parent, came, dist, level, queue, cur, expanded),
        cells.len() <= u32::MAX,
        cur >= 0,
        0 <= step(m, cells.len() as int, cur, c) < cells.len(),
        cells[step(m, cells.len() as int, cur, c)] != WALL,
        !vis[step(m, cells.len() as int, cur, c)],
    ensures ({
        let nb = step(m, cells.len() as int, cur, c);
        &&& bfs_inv(cells, m, start, end, vis.update(nb, true), parent.update(nb, cur as u32),
            came.update(nb, c), dist.update(nb, level + 1), level, queue.push(nb as usize), cur, expanded)
        &&& unvisited(vis.update(nb, true)) < unvisited(vis)
    }),
{
    let size = cells.len() as int;
    let nb = step(m, size, cur, c);
    let v2 = vis.update(nb, true);
    let p2 = parent.update(nb, cur as u32);
    let c2 = came.update(nb, c);
    let d2 = dist.update(nb, level + 1);
    let q2 = queue.push(nb as usize);
    lemma_unvisited_update(vis, nb);
    assert forall|v: int| 0 <= v < size && v2[v] implies #[trigger] parent_ok(cells, m, start, v2, p2, c2, d2, v) by {
        if v != nb {
            assert(vis[v]);
            assert(parent_ok(cells, m, start, vis, parent, came, dist, v));
            if v != start {
                assert(vis[parent[v] as int]);
            }
        }
    }
    assert forall|p: Seq<u8>| #![trigger walk(cells, m, start, p)]
        walk(cells, m, start, p) >= 0 && v2[walk(cells, m, start, p)] implies d2[walk(cells, m, start, p)] <= p.len() by {
        if walk(cells, m, start, p) == nb {
            if p.len() <= level {
                assert(vis[walk(cells, m, start, p)]);
            }
        }
    }
    assert forall|k: int| 0 <= k < q2.len() implies {
        &&& (#[trigger] q2[k] as int) < size
        &&& v2[q2[k] as int]
        &&& level <= d2[q2[k] as int] <= level + 1
    } by {
        if k < queue.len() {
            assert(q2[k] == queue[k]);
        }
    }
    assert forall|i: int, j: int| 0 <= i < j < q2.len() implies d2[#[trigger] q2[i] as int] <= d2[#[trigger] q2[j] as int] by {
        assert(q2[i] == queue[i]);
        if j < queue.len() {
            assert(q2[j] == queue[j]);
        }
    }
    assert forall|u: int, cc: u8|
        0 <= u < size && #[trigger] v2[u] && !q2.contains(u as usize) && u != cur
            && 0 <= #[trigger] step(m, size, u, cc) < size && cells[step(m, size, u, cc)] != WALL
            implies v2[step(m, size, u, cc)] by {
        if u == nb {
            assert(q2[q2.len() - 1] == nb as usize);
        } else {
            if queue.contains(u as usize) {
                let k = choose|k: int| 0 <= k < queue.len() && queue[k] == u as usize;
                assert(q2[k] == u as usize);
            }
            assert(vis[u]);
        }
    }
    if v2[end] {
        if end == nb {
            assert(q2[q2.len() - 1] == nb as usize);
        } else if queue.contains(end as usize) {
            let k = choose|k: int| 0 <= k < queue.len() && queue[k] == end as usize;
            assert(q2[k] == end as usize);
        }
    }
}

/// Once every open neighbour of the pending cell is visited, and it is not
/// the end, it needs no further expansion.
proof fn lemma_bfs_settle(
    cells: Seq<u8>, m: int, start: int, end: int,
    vis: Seq<bool>, parent: Seq<u32>, came: Seq<u8>, dist: Seq<int>,
    level: int, queue: Seq<usize>, cur: int, expanded: int,
)
    requires
        bfs_inv(cells, m, start, end, vis, parent, came, dist, level, queue, cur, expanded),
        cur != end,
        forall|c: u8| 0 <= #[trigger] step(m, cells.len() as int, cur, c) < cells.len()
            && cells[step(m, cells.len() as int, cur, c)] != WALL ==> vis[step(m, cells.len() as int, cur, c)],
    ensures
        bfs_inv(cells, m, start, end, vis, parent, came, dist, level, queue, -1, expanded),
{
}

/// A legal walk from the start through a closed visited set stays in it.
proof fn lemma_bfs_closed_walk(
    cells: Seq<u8>, m: int, start: int, end: int,
    vis: Seq<bool>, parent: Seq<u32>, came: Seq<u8>, dist: Seq<int>,
    level: int, expanded: int, p: Seq<u8>,
)
    requires
        bfs_inv(cells, m, start, end, vis, parent, came, dist, level, Seq::empty(), -1, expanded),
        walk(cells, m, start, p) >= 0,
    ensures
        vis[walk(cells, m, start, p)],
    decreases p.len(),
{
    if p.len() > 0 {
        lemma_walk_last(cells, m, start, p);
        lemma_bfs_closed_walk(cells, m, start, end, vis, parent, came, dist, level, expanded, p.drop_last());
        let u = walk(cells, m, start, p.drop_last());
        assert(!Seq::<usize>::empty().contains(u as usize));
        assert(vis[step(m, cells.len() as int, u, p.last())]);
    }
}

/// A search whose queue runs dry without reaching the end proves the end
/// unreachable.
proof fn lemma_bfs_exhausted(
    cells: Seq<u8>, m: int, start: int, end: int,
    vis: Seq<bool>, parent: Seq<u32>, came: Seq<u8>, dist: Seq<int>,
    level: int, expanded: int,
)
    requires
        bfs_inv(cells, m, start, end, vis, parent, came, dist, level, Seq::empty(), -1, expanded),
    ensures
        forall|p: Seq<u8>| #[trigger] walk(cells, m, start, p) != end,
{
    assert forall|p: Seq<u8>| #[trigger] walk(cells, m, start, p) != end by {
        if walk(cells, m, start, p) == end {
            lemma_bfs_closed_walk(cells, m, start, end, vis, parent, came, dist, level, expanded, p);
            assert(!Seq::<usize>::empty().contains(end as usize));
        }
    }
}

/// The expanded cells `done`: visited, no further out than `level`, and
/// off the queue, which holds no cell twice; every visited cell is expanded
/// or queued.
pub open spec fn done_inv(
    done: Set<int>, size: int, vis: Seq<bool>, dist: Seq<int>, level: int, queue: Seq<usize>,
) -> bool {
    &&& done.finite()
    &&& forall|v: int| #[trigger] done.contains(v) ==> 0 <= v < size && vis[v] && dist[v] <= level
    &&& forall|k: int| 0 <= k < queue.len() ==> !done.contains(#[trigger] queue[k] as int)
    &&& queue.no_duplicates()
    &&& forall|v: int| 0 <= v < size && #[trigger] vis[v] ==> done.contains(v) || queue.contains(v as usize)
}

/// Entering a new cell, or not, keeps the expanded cells apart from the
/// queue.
proof fn lemma_done_visit(
    done: Set<int>, size: int, vis: Seq<bool>, dist: Seq<int>, level: int, queue: Seq<usize>,
    vis2: Seq<bool>, dist2: Seq<int>, queue2: Seq<usize>, n: int, pushed: bool,
)
    requires
        done_inv(done, size, vis, dist, level, queue),
        size <= usize::MAX,
        vis.len() == size,
        dist.len() == size,
        forall|k: int| 0 <= k < queue.len() ==> vis[#[trigger] queue[k] as int],
        pushed ==> {
            &&& 0 <= n < size
            &&& !vis[n]
            &&& queue2 == queue.push(n as usize)
            &&& vis2 == vis.update(n, true)
            &&& dist2 == dist.update(n, level + 1)
        },
        !pushed ==> queue2 == queue && vis2 == vis && dist2 == dist,
    ensures
        done_inv(done, size, vis2, dist2, level, queue2),
{
    if pushed {
        assert(queue2[queue.len() as int] as int == n);
        assert(!done.contains(n));
        assert forall|k: int| 0 <= k < queue2.len() implies !done.contains(#[trigger] queue2[k] as int) by {
            if k < queue.len() {
                assert(queue2[k] == queue[k]);
            }
        }
        assert forall|i: int, j: int| 0 <= i < queue2.len() && 0 <= j < queue2.len() && i != j implies queue2[i]
            != queue2[j] by {
            if i < queue.len() && j < queue.len() {
                assert(queue2[i] == queue[i] && queue2[j] == queue[j]);
            } else if i < queue.len() {
                assert(vis[queue[i] as int]);
            } else if j < queue.len() {
                assert(vis[queue[j] as int]);
            }
        }
        assert(queue2.no_duplicates());
        assert forall|v: int| #[trigger] done.contains(v) implies 0 <= v < size && vis2[v] && dist2[v] <= level by {
            assert(vis[v]);
            assert(v != n);
        }
        assert forall|v: int| 0 <= v < size && #[trigger] vis2[v] implies done.contains(v) || queue2.contains(
            v as usize,
        ) by {
            if v == n {
                assert(queue2[queue.len() as int] == n as usize);
            } else {
                assert(vis[v]);
                if queue.contains(v as usize) {
                    let k = choose|k: int| 0 <= k < queue.len() && queue[k] == v as usize;
                    assert(queue2[k] == v as usize);
                }
            }
        }
    }
}

/// Taking the front of the queue adds it to the expanded cells.
proof fn lemma_done_pop(
    done: Set<int>, size: int, vis: Seq<bool>, dist: Seq<int>, level: int, queue: Seq<usize>, level2: int,
)
    requires
        done_inv(done, size, vis, dist, level, queue),
        size <= usize::MAX,
        queue.len() > 0,
        0 <= queue[0] < size,
        vis[queue[0] as int],
        dist[queue[0] as int] == level2,
        level <= level2,
    ensures
        done_inv(done.insert(queue[0] as int), size, vis, dist, level2, queue.drop_first()),
        !done.contains(queue[0] as int),
        done.insert(queue[0] as int).len() == done.len() + 1,
{
    let rest = queue.drop_first();
    assert(!done.contains(queue[0] as int));
    assert forall|k: int| 0 <= k < rest.len() implies !done.insert(queue[0] as int).contains(
        #[trigger] rest[k] as int,
    ) by {
        assert(rest[k] == queue[k + 1]);
        assert(queue[k + 1] != queue[0]);
    }
    assert forall|v: int| 0 <= v < size && #[trigger] vis[v] implies done.insert(queue[0] as int).contains(v)
        || rest.contains(v as usize) by {
        if !done.contains(v) && v != queue[0] as int {
            let k = choose|k: int| 0 <= k < queue.len() && queue[k] == v as usize;
            assert(k > 0);
            assert(rest[k - 1] == v as usize);
        }
    }
}

/// Enters the neighbour `nidx` of the cell being expanded by move `mv`,
/// unless it is a wall or already visited: marks it visited, records its
/// parent and move, and queues it. Returns whether it was entered.
fn visit_neighbour(
    maze: &Maze,
    visited: &mut Vec<bool>,
    parent: &mut Vec<u32>,
    came: &mut Vec<u8>,
    queue: &mut VecDeque<usize>,
    cur: usize,
    nidx: usize,
    mv: u8,
    Ghost(dist): Ghost<Seq<int>>,
    Ghost(level): Ghost<int>,
    Ghost(expanded): Ghost<int>,
    Ghost(order): Ghost<Seq<int>>,
) -> (pushed: bool)
    requires
        maze.wf(),
        maze.cells.len() <= u32::MAX,
        bfs_inv(maze.cells@, maze.m as int, maze.start as int, maze.end as int, old(visited)@, old(parent)@,
            old(came)@, dist, level, old(queue)@, cur as int, expanded),
        nidx as int == step(maze.m as int, maze.cells.len() as int, cur as int, mv),
        nidx < maze.cells.len(),
        queue_matches(maze.cells.len() as int, order, expanded, old(queue)@, old(visited)@),
    ensures
        pushed == (maze.cells@[nidx as int] != WALL && !old(visited)@[nidx as int]),
        queue_matches(maze.cells.len() as int, enter(maze.cells@, maze.m as int, order, cur as int, mv), expanded,
            final(queue)@, final(visited)@),
        bfs_inv(maze.cells@, maze.m as int, maze.start as int, maze.end as int, final(visited)@, final(parent)@,
            final(came)@, if pushed { dist.update(nidx as int, level + 1) } else { dist }, level, final(queue)@,
            cur as int, expanded),
        final(visited)@[nidx as int] || maze.cells@[nidx as int] == WALL,
        forall|x: int| 0 <= x < old(visited)@.len() && old(visited)@[x] ==> final(visited)@[x],
        unvisited(final(visited)@) <= unvisited(old(visited)@),
        unvisited(final(visited)@) == unvisited(old(visited)@) ==> final(queue)@ == old(queue)@,
        pushed ==> final(queue)@ == old(queue)@.push(nidx) && final(visited)@ == old(visited)@.update(
            nidx as int,
            true,
        ),
        !pushed ==> final(queue)@ == old(queue)@ && final(visited)@ == old(visited)@,
{
    proof {
        reveal(queue_matches);
    }
    if visited[nidx] || !maze.passable(nidx) {
        proof {
            assert(enter(maze.cells@, maze.m as int, order, cur as int, mv) == order);
        }
        return false;
    }
    proof {
        let o = order.push(nidx as int);
        assert(enter(maze.cells@, maze.m as int, order, cur as int, mv) == o);
        assert(o[order.len() as int] == nidx as int);
        assert forall|v: int| 0 <= v < maze.cells.len() implies (visited@.update(nidx as int, true)[v] <==> o.contains(v)) by {
            if v != nidx as int && o.contains(v) {
                let i = choose|i: int| 0 <= i < o.len() && o[i] == v;
                assert(order[i] == v);
            }
            if v != nidx as int && order.contains(v) {
                let i = choose|i: int| 0 <= i < order.len() && order[i] == v;
                assert(o[i] == v);
            }
        }
        assert forall|i: int| 0 <= i < queue@.push(nidx).len() implies #[trigger] queue@.push(nidx)[i] as int == o[expanded + i] by {
            if i < queue@.len() {
                assert(queue@.push(nidx)[i] == queue@[i]);
                assert(queue@[i] as int == order[expanded + i]);
                assert(o[expanded + i] == order[expanded + i]);
            } else {
                assert(expanded + i == order.len());
            }
        }
        lemma_bfs_visit(maze.cells@, maze.m as int, maze.start as int, maze.end as int, visited@, parent@, came@,
            dist, level, queue@, cur as int, expanded, mv);
    }
    visited.set(nidx, true);
    parent.set(nidx, cur as u32);
    came.set(nidx, mv);
    queue.push_back(nidx);
    true
}

/// Breadth-first search from `A`: returns a shortest path to `B`, or none
/// when `B` cannot be reached, and the number of cells expanded.
#[verifier::rlimit(80)]
pub fn solve(maze: &Maze) -> (res: SearchResult)
    requires
        maze.wf(),
        maze.cells.len() <= u32::MAX,
    ensures
        res.path is Some <==> maze.reachable(),
        res.path matches Some(p) ==> maze.is_shortest_route(p@),
        1 <= res.expanded <= maze.cells.len(),
        res.expanded <= maze.reachable_cells().len(),
        res.path is None ==> res.expanded == maze.reachable_cells().len(),
        res.path matches Some(p) ==> maze.cells_within(p@.len() - 1).len() < res.expanded
            <= maze.cells_within(p@.len() as int).len(),
        res.path is Some ==> ({
            let o = queue_order(maze.cells@, maze.m as int, maze.start as int, (res.expanded - 1) as nat);
            &&& o[res.expanded - 1] == maze.end
            &&& forall|j: int| 0 <= j < res.expanded - 1 ==> o[j] != maze.end
        }),
{
    let size = maze.cells.len();
    let m = maze.m;
    let ghost cells = maze.cells@;
    let ghost mm = m as int;
    let ghost start = maze.start as int;
    let ghost end = maze.end as int;
    assert(m > 0) by (nonlinear_arith)
        requires size == maze.n * m, size > 0;
    let mut visited: Vec<bool> = vec![false; size];
    let mut parent: Vec<u32> = vec![u32::MAX; size];
    let mut came: Vec<u8> = vec![0u8; size];
    let ghost mut dist: Seq<int> = Seq::new(size as nat, |i: int| 0int);
    let mut queue: VecDeque<usize> = VecDeque::new();
    proof {
        lemma_unvisited_none(visited@);
        lemma_unvisited_update(visited@, start);
    }
    visited.set(maze.start, true);
    queue.push_back(maze.start);
    let mut expanded: u64 = 0;
    let mut found = false;
    let ghost mut level: int = 0;
    let ghost mut done: Set<int> = Set::empty();
    let ghost mut order: Seq<int> = seq![start];
    proof {
        assert(queue@ =~= seq![maze.start]);
        assert(order == queue_order(cells, mm, start, 0));
        reveal(queue_matches);
        assert forall|v: int| 0 <= v < size implies (visited@[v] <==> order.contains(v)) by {
            if order.contains(v) {
                assert(order[0] == v);
            }
            if v == start {
                assert(order[0] == v);
            }
        }
        assert forall|v: int| 0 <= v < size && #[trigger] visited@[v] implies done.contains(v) || queue@.contains(
            v as usize,
        ) by {
            assert(v == start);
            assert(queue@[0] == maze.start);
        }
        lemma_bfs_begin(cells, mm, start, end, visited@, parent@, came@, dist);
    }
    while !found && queue.len() > 0
        invariant
            cells == maze.cells@,
            mm == m,
            m == maze.m,
            start == maze.start,
            end == maze.end,
            size == cells.len(),
            maze.wf(),
            size <= u32::MAX,
            m > 0,
            !found ==> bfs_inv(cells, mm, start, end, visited@, parent@, came@, dist, level, queue@, -1, expanded as int),
            found ==> bfs_inv(cells, mm, start, end, visited@, parent@, came@, dist, level, queue@, end, expanded as int),
            found ==> expanded >= 1,
            expanded >= 1 || queue@.len() > 0,
            done_inv(done, size as int, visited@, dist, level, queue@),
            expanded == done.len(),
            found ==> done.contains(end),
            !found ==> order == queue_order(cells, mm, start, expanded as nat),
            !found ==> queue_matches(size as int, order, expanded as int, queue@, visited@),
            !found ==> forall|j: int| 0 <= j < expanded ==> order[j] != end,
            found ==> order == queue_order(cells, mm, start, (expanded - 1) as nat),
            found ==> order[expanded - 1] == end,
            found ==> forall|j: int| 0 <= j < expanded - 1 ==> order[j] != end,
        decreases (if found { 0int } else { 1int }), unvisited(visited@), queue@.len(),
    {
        let ghost before = queue@;
        let ghost e0 = expanded as int;
        let ghost order0 = order;
        let cur = queue.pop_front().unwrap();
        proof {
            assert(queue@ =~= before.drop_first());
            lemma_order_pop(size as int, order0, e0, before, visited@);
            lemma_bfs_pop(cells, mm, start, end, visited@, parent@, came@, dist, level, before, expanded as int);
            lemma_done_pop(done, size as int, visited@, dist, level, before, dist[cur as int]);
            done = done.insert(cur as int);
            level = dist[cur as int];
            lemma_unvisited_bound(visited@);
            lemma_neighbours(maze.n as int, mm, size as int, cur as int);
        }
        expanded += 1;
        if cur == maze.end {
            found = true;
        } else {
            let ghost vis0 = visited@;
            let ghost q0 = queue@;
            if cur >= m {
                let ghost vb = visited@;
                let ghost qb = queue@;
                let ghost db = dist;
                let pushed = visit_neighbour(maze, &mut visited, &mut parent, &mut came, &mut queue, cur, cur - m, UP,
                    Ghost(dist), Ghost(level), Ghost(expanded as int), Ghost(order));
                proof {
                    order = enter(cells, mm, order, cur as int, UP);
                    if pushed { dist = dist.update(cur - m, level + 1); }
                    lemma_done_visit(done, size as int, vb, db, level, qb, visited@, dist, queue@, (cur - m) as int, pushed);
                }
            } else {
                proof {
                    assert(enter(cells, mm, order, cur as int, UP) == order);
                }
            }
            if m < size - cur {
                let ghost vb = visited@;
                let ghost qb = queue@;
                let ghost db = dist;
                let pushed = visit_neighbour(maze, &mut visited, &mut parent, &mut came, &mut queue, cur, cur + m, DOWN,
                    Ghost(dist), Ghost(level), Ghost(expanded as int), Ghost(order));
                proof {
                    order = enter(cells, mm, order, cur as int, DOWN);
                    if pushed { dist = dist.update(cur + m, level + 1); }
                    lemma_done_visit(done, size as int, vb, db, level, qb, visited@, dist, queue@, (cur + m) as int, pushed);
                }
            } else {
                proof {
                    assert(enter(cells, mm, order, cur as int, DOWN) == order);
                }
            }
            if cur % m > 0 {
                let ghost vb = visited@;
                let ghost qb = queue@;
                let ghost db = dist;
                let pushed = visit_neighbour(maze, &mut visited, &mut parent, &mut came, &mut queue, cur, cur - 1, LEFT,
                    Ghost(dist), Ghost(level), Ghost(expanded as int), Ghost(order));
                proof {
                    order = enter(cells, mm, order, cur as int, LEFT);
                    if pushed { dist = dist.update(cur - 1, level + 1); }
                    lemma_done_visit(done, size as int, vb, db, level, qb, visited@, dist, queue@, (cur - 1) as int, pushed);
                }
            } else {
                proof {
                    assert(enter(cells, mm, order, cur as int, LEFT) == order);
                }
            }
            if cur % m + 1 < m {
                let ghost vb = visited@;
                let ghost qb = queue@;
                let ghost db = dist;
                let pushed = visit_neighbour(maze, &mut visited, &mut parent, &mut came, &mut queue, cur, cur + 1, RIGHT,
                    Ghost(dist), Ghost(level), Ghost(expanded as int), Ghost(order));
                proof {
                    order = enter(cells, mm, order, cur as int, RIGHT);
                    if pushed { dist = dist.update(cur + 1, level + 1); }
                    lemma_done_visit(done, size as int, vb, db, level, qb, visited@, dist, queue@, (cur + 1) as int, pushed);
                }
            } else {
                proof {
                    assert(enter(cells, mm, order, cur as int, RIGHT) == order);
                }
            }
            proof {
                assert forall|c: u8| 0 <= #[trigger] step(mm, size as int, cur as int, c) < size
                    && cells[step(mm, size as int, cur as int, c)] != WALL implies visited@[step(mm, size as int, cur as int, c)] by {
                }
                lemma_bfs_settle(cells, mm, start, end, visited@, parent@, came@, dist, level, queue@, cur as int, expanded as int);
                assert(order == expand_cell(cells, mm, order0, cur as int));
                lemma_expand_prefix(cells, mm, order0, cur as int);
                assert(order == queue_order(cells, mm, start, expanded as nat));
                assert forall|j: int| 0 <= j < expanded implies order[j] != end by {
                    assert(order[j] == order0[j]);
                }
            }
        }
    }
    let path = if found {
        proof {
            lemma_chain_walk(cells, mm, start, visited@, parent@, came@, dist, end);
        }
        let p = reconstruct(maze.start, maze.end, &parent, &came);
        proof {
            let k = dist[end] as nat;
            assert(parent_chain(parent@, start, end, k));
            assert(p@ == chain_moves(parent@, came@, end, k));
            assert(maze.is_route(p@));
            assert forall|q: Seq<u8>| #[trigger] maze.is_route(q) implies p@.len() <= q.len() by {
                assert(walk(cells, mm, start, q) == end);
            }
        }
        Some(p)
    } else {
        proof {
            lemma_bfs_exhausted(cells, mm, start, end, visited@, parent@, came@, dist, level, expanded as int);
            assert forall|q: Seq<u8>| !#[trigger] maze.is_route(q) by {
                assert(walk(cells, mm, start, q) != end);
            }
        }
        None
    };
    proof {
        lemma_unvisited_bound(visited@);
        let q = queue@;
        let pending = if found { end } else { -1 };
        assert(bfs_inv(cells, mm, start, end, visited@, parent@, came@, dist, level, q, pending, expanded as int));
        let vset = Set::new(|v: int| 0 <= v < size && visited@[v]);
        let reach = maze.reachable_cells();
        lemma_visited_count(visited@);
        maze.lemma_reachable_cells_bound();
        assert forall|v: int| #[trigger] vset.contains(v) implies reach.contains(v) by {
            lemma_chain_walk(cells, mm, start, visited@, parent@, came@, dist, v);
            assert(maze.walk_from_start(chain_moves(parent@, came@, v, dist[v] as nat)) == v);
        }
        vstd::set_lib::lemma_len_subset(vset, reach);
        if found {
            let pl = path.unwrap()@.len() as int;
            let within = maze.cells_within(pl);
            maze.lemma_bounded_sets(pl);
            lemma_chain_walk(cells, mm, start, visited@, parent@, came@, dist, end);
            assert(pl == dist[end]);
            assert forall|v: int| #[trigger] done.contains(v) implies within.contains(v) by {
                lemma_chain_walk(cells, mm, start, visited@, parent@, came@, dist, v);
                assert(maze.walk_from_start(chain_moves(parent@, came@, v, dist[v] as nat)) == v);
            }
            vstd::set_lib::lemma_len_subset(done, within);
            maze.lemma_bounded_sets(pl - 1);
            let closer = maze.cells_within(pl - 1);
            assert forall|v: int| #[trigger] closer.insert(end).contains(v) implies done.contains(v) by {
                if v != end {
                    let w = choose|w: Seq<u8>| #[trigger] maze.walk_from_start(w) == v && w.len() <= pl - 1;
                    assert(walk(cells, mm, start, w) == v);
                    crate::labyrinth::lemma_walk_bounds(cells, mm, start, w);
                    assert(visited@[v]);
                    assert(dist[v] <= pl - 1);
                    if q.contains(v as usize) {
                        let k = choose|k: int| 0 <= k < q.len() && q[k] == v as usize;
                        assert(level <= dist[q[k] as int]);
                    }
                }
            }
            assert(!closer.contains(end)) by {
                if closer.contains(end) {
                    let w = choose|w: Seq<u8>| #[trigger] maze.walk_from_start(w) == end && w.len() <= pl - 1;
                    assert(walk(cells, mm, start, w) == end);
                }
            }
            vstd::set_lib::lemma_len_subset(closer.insert(end), done);
        }
        if !found {
            assert(q.len() == 0);
            assert(q =~= Seq::<usize>::empty());
            assert forall|v: int| #[trigger] reach.contains(v) implies vset.contains(v) by {
                let p = choose|p: Seq<u8>| #[trigger] maze.walk_from_start(p) == v;
                lemma_bfs_closed_walk(cells, mm, start, end, visited@, parent@, came@, dist, level, expanded as int, p);
                crate::labyrinth::lemma_walk_bounds(cells, mm, start, p);
            }
            vstd::set_lib::lemma_len_subset(reach, vset);
        }
    }
    SearchResult { path, expanded }
}

/// The visited cells and the unvisited ones make up all cells.
proof fn lemma_visited_count(vis: Seq<bool>)
    ensures
        Set::new(|v: int| 0 <= v < vis.len() && vis[v]).finite(),
        Set::new(|v: int| 0 <= v < vis.len() && vis[v]).len() + unvisited(vis) == vis.len(),
    decreases vis.len(),
{
    let s = Set::new(|v: int| 0 <= v < vis.len() && vis[v]);
    if vis.len() == 0 {
        assert(s =~= Set::<int>::empty());
    } else {
        let d = vis.drop_last();
        lemma_visited_count(d);
        let sd = Set::new(|v: int| 0 <= v < d.len() && d[v]);
        if vis.last() {
            assert(s =~= sd.insert(vis.len() - 1));
        } else {
            assert(s =~= sd);
        }
    }
}

} // verus!
