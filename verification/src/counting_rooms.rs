//! "Counting Rooms": a room is a connected component of floor squares, two
//! floor squares being connected when they are horizontally or vertically
//! adjacent. Three algorithms count the rooms of a grid: breadth-first and
//! depth-first flood fill, and union-find over adjacent floor squares.

pub mod bfs;
pub mod dfs;
pub mod union_find;
pub mod char_grid;

use vstd::prelude::*;
use vstd::arithmetic::div_mod::lemma_fundamental_div_mod_converse;
use vstd::arithmetic::mul::lemma_mul_is_distributive_add_other_way;

verus! {

/// Cells `a` and `b` of a row-major grid of `size` cells and width `m` are
/// orthogonal neighbours.
pub open spec fn adjacent(m: int, size: int, a: int, b: int) -> bool {
    &&& 0 <= a < size
    &&& 0 <= b < size
    &&& {
        ||| b == a + m
        ||| a == b + m
        ||| (b == a + 1 && a % m + 1 < m)
        ||| (a == b + 1 && b % m + 1 < m)
    }
}

/// `w` is a walk over floor cells, each step to an orthogonal neighbour.
pub open spec fn is_walk(floor: Seq<bool>, m: int, w: Seq<int>) -> bool {
    &&& w.len() >= 1
    &&& forall|k: int| 0 <= k < w.len() ==> 0 <= #[trigger] w[k] < floor.len() && floor[w[k]]
    &&& forall|k: int| 0 <= k < w.len() - 1 ==> #[trigger] adjacent(m, floor.len() as int, w[k], w[k + 1])
}

/// Floor cells `a` and `b` lie in the same room.
pub open spec fn connected(floor: Seq<bool>, m: int, a: int, b: int) -> bool {
    exists|w: Seq<int>| #[trigger] is_walk(floor, m, w) && w[0] == a && w.last() == b
}

/// Cell `i` is the first cell (in row-major order) of its room.
pub open spec fn is_leader(floor: Seq<bool>, m: int, i: int) -> bool {
    &&& 0 <= i < floor.len()
    &&& floor[i]
    &&& forall|j: int| 0 <= j < i ==> !#[trigger] connected(floor, m, j, i)
}

/// The number of rooms whose first cell comes before cell `k`.
pub open spec fn rooms_before(floor: Seq<bool>, m: int, k: int) -> nat
    decreases k,
{
    if k <= 0 {
        0
    } else {
        rooms_before(floor, m, k - 1) + if is_leader(floor, m, k - 1) { 1nat } else { 0nat }
    }
}

/// The number of rooms of the grid.
pub open spec fn room_count(floor: Seq<bool>, m: int) -> nat {
    rooms_before(floor, m, floor.len() as int)
}

/// Cell `i` lies in the room of some floor cell before `k`.
pub open spec fn covered(floor: Seq<bool>, m: int, k: int, i: int) -> bool {
    exists|j: int| 0 <= j < k && #[trigger] connected(floor, m, j, i)
}

/// There are at most `k` rooms before cell `k`.
pub proof fn lemma_rooms_before_bound(floor: Seq<bool>, m: int, k: int)
    ensures
        rooms_before(floor, m, k) <= if k < 0 { 0 } else { k },
    decreases k,
{
    if k > 0 {
        lemma_rooms_before_bound(floor, m, k - 1);
    }
}

/// A floor cell is connected to itself.
pub proof fn lemma_connected_refl(floor: Seq<bool>, m: int, a: int)
    requires
        0 <= a < floor.len(),
        floor[a],
    ensures
        connected(floor, m, a, a),
{
    let w = seq![a];
    assert(is_walk(floor, m, w));
}

/// A walk can be extended by one step onto a neighbouring floor cell.
pub proof fn lemma_connected_step(floor: Seq<bool>, m: int, a: int, b: int, c: int)
    requires
        connected(floor, m, a, b),
        adjacent(m, floor.len() as int, b, c),
        floor[c],
    ensures
        connected(floor, m, a, c),
{
    let w = choose|w: Seq<int>| #[trigger] is_walk(floor, m, w) && w[0] == a && w.last() == b;
    let w2 = w.push(c);
    assert forall|k: int| 0 <= k < w2.len() - 1 implies #[trigger] adjacent(m, floor.len() as int, w2[k], w2[k + 1]) by {
        if k < w.len() - 1 {
            assert(adjacent(m, floor.len() as int, w[k], w[k + 1]));
        }
    }
    assert(is_walk(floor, m, w2));
}

/// Connection is symmetric.
pub proof fn lemma_connected_symm(floor: Seq<bool>, m: int, a: int, b: int)
    requires
        connected(floor, m, a, b),
    ensures
        connected(floor, m, b, a),
{
    let w = choose|w: Seq<int>| #[trigger] is_walk(floor, m, w) && w[0] == a && w.last() == b;
    let r = w.reverse();
    assert forall|k: int| 0 <= k < r.len() - 1 implies #[trigger] adjacent(m, floor.len() as int, r[k], r[k + 1]) by {
        let j = w.len() - 2 - k;
        assert(adjacent(m, floor.len() as int, w[j], w[j + 1]));
    }
    assert(is_walk(floor, m, r));
}

/// Connection is transitive.
pub proof fn lemma_connected_trans(floor: Seq<bool>, m: int, a: int, b: int, c: int)
    requires
        connected(floor, m, a, b),
        connected(floor, m, b, c),
    ensures
        connected(floor, m, a, c),
{
    let w1 = choose|w: Seq<int>| #[trigger] is_walk(floor, m, w) && w[0] == a && w.last() == b;
    let w2 = choose|w: Seq<int>| #[trigger] is_walk(floor, m, w) && w[0] == b && w.last() == c;
    let w = w1 + w2.drop_first();
    assert forall|k: int| 0 <= k < w.len() - 1 implies #[trigger] adjacent(m, floor.len() as int, w[k], w[k + 1]) by {
        if k < w1.len() - 1 {
            assert(adjacent(m, floor.len() as int, w1[k], w1[k + 1]));
        } else {
            let j = k - (w1.len() - 1);
            assert(adjacent(m, floor.len() as int, w2[j], w2[j + 1]));
        }
    }
    assert(is_walk(floor, m, w));
}

/// A set of visited cells that contains `s` and is closed under stepping to a
/// neighbouring floor cell contains every cell connected to `s`.
pub proof fn lemma_closed_contains_room(floor: Seq<bool>, m: int, vis: Seq<bool>, s: int, t: int)
    requires
        vis.len() == floor.len(),
        0 <= s < vis.len(),
        vis[s],
        forall|i: int, j: int|
            0 <= i < vis.len() && #[trigger] vis[i] && #[trigger] adjacent(m, floor.len() as int, i, j) && floor[j]
                ==> vis[j],
        connected(floor, m, s, t),
    ensures
        vis[t],
{
    let w = choose|w: Seq<int>| #[trigger] is_walk(floor, m, w) && w[0] == s && w.last() == t;
    lemma_closed_walk_prefix(floor, m, vis, w, w.len() - 1);
}

/// Every cell of a walk that starts in a closed visited set is visited.
proof fn lemma_closed_walk_prefix(floor: Seq<bool>, m: int, vis: Seq<bool>, w: Seq<int>, k: int)
    requires
        vis.len() == floor.len(),
        is_walk(floor, m, w),
        vis[w[0]],
        forall|i: int, j: int|
            0 <= i < vis.len() && #[trigger] vis[i] && #[trigger] adjacent(m, floor.len() as int, i, j) && floor[j]
                ==> vis[j],
        0 <= k < w.len(),
    ensures
        vis[w[k]],
    decreases k,
{
    if k > 0 {
        lemma_closed_walk_prefix(floor, m, vis, w, k - 1);
        let j = k - 1;
        assert(adjacent(m, floor.len() as int, w[j], w[j + 1]));
    }
}

/// Index arithmetic of a row-major grid: the neighbours of cell `a` that the
/// algorithms visit are exactly its orthogonal neighbours.
pub proof fn lemma_neighbours(n: int, m: int, size: int, a: int)
    requires
        m > 0,
        size == n * m,
        0 <= a < size,
    ensures
        (a % m) + 1 < m ==> a + 1 < size,
        (a % m) > 0 ==> a >= 1,
        (a % m) + 1 < m ==> (a + 1) % m == a % m + 1,
        (a % m) > 0 ==> (a - 1) % m + 1 < m,
        forall|b: int| #[trigger] adjacent(m, size, a, b) ==> {
            ||| b == a - m && a >= m
            ||| b == a + m && a + m < size
            ||| b == a - 1 && a % m > 0
            ||| b == a + 1 && a % m + 1 < m
        },
{
    let q = a / m;
    let r = a % m;
    vstd::arithmetic::div_mod::lemma_fundamental_div_mod(a, m);
    assert(a == q * m + r) by {
        vstd::arithmetic::mul::lemma_mul_is_commutative(m, q);
    }
    assert(0 <= r < m);
    assert(r > 0 ==> a >= 1) by (nonlinear_arith)
        requires a == q * m + r, 0 <= r < m, a >= 0, m > 0;
    if r + 1 < m {
        lemma_fundamental_div_mod_converse(a + 1, m, q, r + 1);
        assert(q < n) by (nonlinear_arith)
            requires a == q * m + r, 0 <= r, a < n * m, m > 0;
        assert(a + 1 < n * m) by (nonlinear_arith)
            requires a == q * m + r, r + 1 < m, q < n, m > 0;
    }
    if r > 0 {
        lemma_fundamental_div_mod_converse(a - 1, m, q, r - 1);
    }
    assert forall|b: int| #[trigger] adjacent(m, size, a, b) implies {
        ||| b == a - m && a >= m
        ||| b == a + m && a + m < size
        ||| b == a - 1 && a % m > 0
        ||| b == a + 1 && a % m + 1 < m
    } by {
        if a == b + 1 && b % m + 1 < m {
            let qb = b / m;
            vstd::arithmetic::div_mod::lemma_fundamental_div_mod(b, m);
            assert(b == qb * m + b % m) by {
                vstd::arithmetic::mul::lemma_mul_is_commutative(m, qb);
            }
            lemma_fundamental_div_mod_converse(a, m, qb, b % m + 1);
        }
    }
}

/// The first cells of the rooms that start before cell `k`.
pub open spec fn leaders_before(floor: Seq<bool>, m: int, k: int) -> Set<int> {
    Set::new(|i: int| 0 <= i < k && is_leader(floor, m, i))
}

/// `rooms_before` counts the set of first cells.
pub proof fn lemma_rooms_before_set(floor: Seq<bool>, m: int, k: int)
    requires
        k >= 0,
    ensures
        leaders_before(floor, m, k).finite(),
        rooms_before(floor, m, k) == leaders_before(floor, m, k).len(),
    decreases k,
{
    if k == 0 {
        assert(leaders_before(floor, m, 0) =~= Set::<int>::empty());
    } else {
        lemma_rooms_before_set(floor, m, k - 1);
        if is_leader(floor, m, k - 1) {
            assert(leaders_before(floor, m, k) =~= leaders_before(floor, m, k - 1).insert(k - 1));
        } else {
            assert(leaders_before(floor, m, k) =~= leaders_before(floor, m, k - 1));
        }
    }
}

/// Every floor cell lies in the room of a first cell that comes no later.
pub proof fn lemma_first_cell(floor: Seq<bool>, m: int, y: int)
    requires
        0 <= y < floor.len(),
        floor[y],
    ensures
        exists|i: int| 0 <= i <= y && is_leader(floor, m, i) && #[trigger] connected(floor, m, i, y),
    decreases y,
{
    if is_leader(floor, m, y) {
        lemma_connected_refl(floor, m, y);
        assert(connected(floor, m, y, y));
    } else {
        let j = choose|j: int| 0 <= j < y && #[trigger] connected(floor, m, j, y);
        let w = choose|w: Seq<int>| #[trigger] is_walk(floor, m, w) && w[0] == j && w.last() == y;
        assert(floor[w[0]]);
        lemma_first_cell(floor, m, j);
        let i = choose|i: int| 0 <= i <= j && is_leader(floor, m, i) && #[trigger] connected(floor, m, i, j);
        lemma_connected_trans(floor, m, i, j, y);
    }
}

/// Two adjacent floor cells are connected.
pub proof fn lemma_adjacent_connected(floor: Seq<bool>, m: int, a: int, b: int)
    requires
        adjacent(m, floor.len() as int, a, b),
        floor[a],
        floor[b],
    ensures
        connected(floor, m, a, b),
{
    lemma_connected_refl(floor, m, a);
    lemma_connected_step(floor, m, a, a, b);
}

/// The number of unvisited cells.
pub open spec fn unvisited(vis: Seq<bool>) -> nat
    decreases vis.len(),
{
    if vis.len() == 0 {
        0
    } else {
        unvisited(vis.drop_last()) + if vis.last() { 0nat } else { 1nat }
    }
}

/// With nothing visited, every cell is unvisited.
pub proof fn lemma_unvisited_none(vis: Seq<bool>)
    requires
        forall|i: int| 0 <= i < vis.len() ==> !vis[i],
    ensures
        unvisited(vis) == vis.len(),
    decreases vis.len(),
{
    if vis.len() > 0 {
        lemma_unvisited_none(vis.drop_last());
    }
}

/// Visiting a cell leaves one fewer unvisited cell.
pub proof fn lemma_unvisited_update(vis: Seq<bool>, b: int)
    requires
        0 <= b < vis.len(),
        !vis[b],
    ensures
        unvisited(vis.update(b, true)) + 1 == unvisited(vis),
    decreases vis.len(),
{
    let v2 = vis.update(b, true);
    if b == vis.len() - 1 {
        assert(v2.drop_last() =~= vis.drop_last());
    } else {
        assert(v2.drop_last() =~= vis.drop_last().update(b, true));
        lemma_unvisited_update(vis.drop_last(), b);
    }
}

/// The state of a flood fill from the floor cell `start`, begun when the
/// visited cells were exactly those covered by the cells before `start`:
/// every visited cell is in an earlier room or in the room of `start`, the
/// frontier holds visited cells of the room of `start`, and every visited
/// cell outside the frontier (other than `pending`, the cell being expanded)
/// has all its floor neighbours visited.
pub open spec fn flood_inv(fl: Seq<bool>, m: int, vis: Seq<bool>, start: int, frontier: Seq<usize>, pending: int) -> bool {
    &&& vis.len() == fl.len()
    &&& fl.len() <= usize::MAX
    &&& 0 <= start < fl.len()
    &&& vis[start]
    &&& forall|i: int| 0 <= i < fl.len() && #[trigger] covered(fl, m, start, i) ==> vis[i]
    &&& forall|i: int| 0 <= i < fl.len() && #[trigger] vis[i] ==> covered(fl, m, start, i) || connected(fl, m, start, i)
    &&& forall|k: int| 0 <= k < frontier.len() ==> {
        &&& #[trigger] frontier[k] < fl.len()
        &&& vis[frontier[k] as int]
        &&& connected(fl, m, start, frontier[k] as int)
    }
    &&& (pending >= 0 ==> 0 <= pending < fl.len() && vis[pending] && connected(fl, m, start, pending))
    &&& forall|i: int, j: int|
        0 <= i < fl.len() && #[trigger] vis[i] && !frontier.contains(i as usize) && i != pending
            && #[trigger] adjacent(m, fl.len() as int, i, j) && fl[j] ==> vis[j]
}

/// A flood fill starts with only `start` on the frontier, when `start` is a
/// floor cell in no earlier room and the visited cells are those covered by
/// the cells before `start`.
pub proof fn lemma_flood_begin(fl: Seq<bool>, m: int, vis: Seq<bool>, start: int)
    requires
        vis.len() == fl.len(),
        fl.len() <= usize::MAX,
        0 <= start < fl.len(),
        fl[start],
        forall|i: int| 0 <= i < fl.len() ==> (vis[i] <==> covered(fl, m, start, i)),
    ensures
        flood_inv(fl, m, vis.update(start, true), start, seq![start as usize], -1),
{
    let v2 = vis.update(start, true);
    let f = seq![start as usize];
    lemma_connected_refl(fl, m, start);
    assert forall|i: int| 0 <= i < fl.len() && #[trigger] v2[i] implies covered(fl, m, start, i) || connected(fl, m, start, i) by {
        if i != start {
            assert(vis[i]);
        }
    }
    assert forall|i: int, j: int|
        0 <= i < fl.len() && #[trigger] v2[i] && !f.contains(i as usize) && i != -1
            && #[trigger] adjacent(m, fl.len() as int, i, j) && fl[j] implies v2[j] by {
        if i != start {
            assert(vis[i]);
            assert(covered(fl, m, start, i));
            let w = choose|w: int| 0 <= w < start && #[trigger] connected(fl, m, w, i);
            lemma_connected_step(fl, m, w, i, j);
            assert(covered(fl, m, start, j));
        } else {
            assert(f[0] == start as usize);
        }
    }
}

/// Taking `frontier[k]` off the frontier makes it the pending cell.
pub proof fn lemma_flood_take(fl: Seq<bool>, m: int, vis: Seq<bool>, start: int, frontier: Seq<usize>, k: int, rest: Seq<usize>)
    requires
        flood_inv(fl, m, vis, start, frontier, -1),
        0 <= k < frontier.len(),
        rest == frontier.remove(k),
    ensures
        flood_inv(fl, m, vis, start, rest, frontier[k] as int),
{
    let cur = frontier[k];
    assert forall|j: int| 0 <= j < rest.len() implies #[trigger] rest[j] < fl.len() && vis[rest[j] as int]
        && connected(fl, m, start, rest[j] as int) by {
        if j < k {
            assert(rest[j] == frontier[j]);
        } else {
            assert(rest[j] == frontier[j + 1]);
        }
    }
    assert forall|i: int, j: int|
        0 <= i < fl.len() && #[trigger] vis[i] && !rest.contains(i as usize) && i != cur as int
            && #[trigger] adjacent(m, fl.len() as int, i, j) && fl[j] implies vis[j] by {
        if frontier.contains(i as usize) {
            let x = choose|x: int| 0 <= x < frontier.len() && frontier[x] == i as usize;
            if x < k {
                assert(rest[x] == frontier[x]);
            } else if x > k {
                assert(rest[x - 1] == frontier[x]);
            }
        }
    }
}

/// Visiting a floor neighbour `b` of the pending cell and putting it on the
/// frontier keeps the flood invariant.
pub proof fn lemma_flood_visit(fl: Seq<bool>, m: int, vis: Seq<bool>, start: int, frontier: Seq<usize>, cur: int, b: int)
    requires
        flood_inv(fl, m, vis, start, frontier, cur),
        cur >= 0,
        adjacent(m, fl.len() as int, cur, b),
        fl[b],
        !vis[b],
    ensures
        flood_inv(fl, m, vis.update(b, true), start, frontier.push(b as usize), cur),
{
    let v2 = vis.update(b, true);
    let f2 = frontier.push(b as usize);
    lemma_connected_step(fl, m, start, cur, b);
    assert forall|k: int| 0 <= k < f2.len() implies #[trigger] f2[k] < fl.len() && v2[f2[k] as int]
        && connected(fl, m, start, f2[k] as int) by {
        if k < frontier.len() {
            assert(f2[k] == frontier[k]);
        }
    }
    assert forall|i: int| 0 <= i < fl.len() && #[trigger] v2[i] implies covered(fl, m, start, i) || connected(fl, m, start, i) by {
        if i != b {
            assert(vis[i]);
        }
    }
    assert forall|i: int, j: int|
        0 <= i < fl.len() && #[trigger] v2[i] && !f2.contains(i as usize) && i != cur
            && #[trigger] adjacent(m, fl.len() as int, i, j) && fl[j] implies v2[j] by {
        if i == b {
            assert(f2[f2.len() - 1] == b as usize);
        } else {
            assert(vis[i]);
            if frontier.contains(i as usize) {
                let x = choose|x: int| 0 <= x < frontier.len() && frontier[x] == i as usize;
                assert(f2[x] == i as usize);
            }
        }
    }
}

/// Once every floor neighbour of the pending cell is visited, it needs no
/// more expansion.
pub proof fn lemma_flood_settle(fl: Seq<bool>, m: int, vis: Seq<bool>, start: int, frontier: Seq<usize>, cur: int)
    requires
        flood_inv(fl, m, vis, start, frontier, cur),
        forall|b: int| #[trigger] adjacent(m, fl.len() as int, cur, b) && fl[b] ==> vis[b],
    ensures
        flood_inv(fl, m, vis, start, frontier, -1),
{
}

/// When the frontier runs dry, the visited cells are exactly those covered by
/// the cells up to and including `start`.
pub proof fn lemma_flood_end(fl: Seq<bool>, m: int, vis: Seq<bool>, start: int)
    requires
        flood_inv(fl, m, vis, start, Seq::empty(), -1),
    ensures
        forall|i: int| 0 <= i < fl.len() ==> (vis[i] <==> covered(fl, m, start + 1, i)),
{
    assert forall|i: int| 0 <= i < fl.len() implies (vis[i] <==> covered(fl, m, start + 1, i)) by {
        if vis[i] {
            if covered(fl, m, start, i) {
                let w = choose|w: int| 0 <= w < start && #[trigger] connected(fl, m, w, i);
                assert(connected(fl, m, w, i));
            } else {
                assert(connected(fl, m, start, i));
            }
        }
        if covered(fl, m, start + 1, i) {
            let w = choose|w: int| 0 <= w < start + 1 && #[trigger] connected(fl, m, w, i);
            if w < start {
                assert(covered(fl, m, start, i));
            } else {
                assert forall|x: int, y: int|
                    0 <= x < vis.len() && #[trigger] vis[x] && #[trigger] adjacent(m, fl.len() as int, x, y) && fl[y]
                        implies vis[y] by {
                    assert(!Seq::<usize>::empty().contains(x as usize));
                }
                lemma_closed_contains_room(fl, m, vis, start, i);
            }
        }
    }
}

/// Passing over a cell that starts no new room keeps the visited cells equal
/// to the covered cells.
pub proof fn lemma_cover_skip(fl: Seq<bool>, m: int, vis: Seq<bool>, start: int)
    requires
        vis.len() == fl.len(),
        0 <= start < fl.len(),
        !fl[start] || vis[start],
        forall|i: int| 0 <= i < fl.len() ==> (vis[i] <==> covered(fl, m, start, i)),
    ensures
        !is_leader(fl, m, start),
        forall|i: int| 0 <= i < fl.len() ==> (vis[i] <==> covered(fl, m, start + 1, i)),
{
    if fl[start] {
        let w = choose|w: int| 0 <= w < start && #[trigger] connected(fl, m, w, start);
        assert(connected(fl, m, w, start));
    }
    assert forall|i: int| 0 <= i < fl.len() implies (vis[i] <==> covered(fl, m, start + 1, i)) by {
        if vis[i] {
            let w = choose|w: int| 0 <= w < start && #[trigger] connected(fl, m, w, i);
            assert(connected(fl, m, w, i));
        }
        if covered(fl, m, start + 1, i) {
            let w = choose|w: int| 0 <= w < start + 1 && #[trigger] connected(fl, m, w, i);
            if w == start {
                let ww = choose|q: Seq<int>| #[trigger] is_walk(fl, m, q) && q[0] == start && q.last() == i;
                assert(fl[ww[0]]);
                let v = choose|v: int| 0 <= v < start && #[trigger] connected(fl, m, v, start);
                lemma_connected_trans(fl, m, v, start, i);
            }
            assert(covered(fl, m, start, i));
        }
    }
}

/// A floor cell that no earlier cell covers starts a new room.
pub proof fn lemma_cover_leader(fl: Seq<bool>, m: int, vis: Seq<bool>, start: int)
    requires
        vis.len() == fl.len(),
        0 <= start < fl.len(),
        fl[start],
        !vis[start],
        forall|i: int| 0 <= i < fl.len() ==> (vis[i] <==> covered(fl, m, start, i)),
    ensures
        is_leader(fl, m, start),
{
    assert forall|j: int| 0 <= j < start implies !#[trigger] connected(fl, m, j, start) by {
        if connected(fl, m, j, start) {
            assert(covered(fl, m, start, start));
        }
    }
}

/// The byte `.` that marks a floor square in a textual map.
pub const FLOOR_BYTE: u8 = 46;

/// The building map as a flat, row-major floor mask: `floor[r * m + c]` is
/// true when the cell in row `r`, column `c` is floor.
pub struct Grid {
    /// Height (rows).
    pub n: usize,
    /// Width (columns).
    pub m: usize,
    /// Length `n * m`; true = floor, false = wall.
    pub floor: Vec<bool>,
}

impl Grid {
    /// The mask has one entry per cell.
    pub open spec fn wf(&self) -> bool {
        self.floor.len() == self.n * self.m
    }

    /// Builds a grid from a precomputed floor mask of length `n * m`.
    pub fn new(n: usize, m: usize, floor: Vec<bool>) -> (g: Grid)
        requires
            floor.len() == n * m,
        ensures
            g.n == n,
            g.m == m,
            g.floor@ == floor@,
            g.wf(),
    {
        Grid { n, m, floor }
    }

    /// Builds a grid from rows of bytes: the width is that of the first row,
    /// and a cell is floor iff its byte is `.` (cells past a short row are
    /// walls; bytes past the width are ignored).
    pub fn from_rows(rows: &[&[u8]]) -> (g: Grid)
        requires
            rows.len() > 0 ==> rows.len() * rows@[0]@.len() <= usize::MAX,
        ensures
            g.wf(),
            g.n == rows.len(),
            g.m == if rows.len() > 0 { rows@[0]@.len() } else { 0 },
            forall|r: int, c: int| 0 <= r < g.n && 0 <= c < g.m ==>
                #[trigger] g.floor@[r * g.m + c] == (c < rows@[r]@.len() && rows@[r]@[c] == FLOOR_BYTE),
    {
        let n = rows.len();
        let m = if n > 0 { rows[0].len() } else { 0 };
        Grid::from_map(n, m, rows)
    }

    /// Builds an `n` by `m` grid from the lines of a map: the cell in row
    /// `r`, column `c` is floor iff line `r` exists, reaches column `c`, and
    /// holds `.` there. Missing lines and short lines read as walls.
    pub fn from_map(n: usize, m: usize, rows: &[&[u8]]) -> (g: Grid)
        requires
            n * m <= usize::MAX,
        ensures
            g.wf(),
            g.n == n,
            g.m == m,
            forall|r: int, c: int| 0 <= r < n && 0 <= c < m ==>
                #[trigger] g.floor@[r * m + c] == (r < rows.len() && c < rows@[r]@.len()
                    && rows@[r]@[c] == FLOOR_BYTE),
    {
        let mut floor: Vec<bool> = Vec::new();
        let mut r: usize = 0;
        while r < n
            invariant
                n * m <= usize::MAX,
                r <= n,
                floor.len() == r * m,
                forall|rr: int, c: int| 0 <= rr < r && 0 <= c < m ==>
                    #[trigger] floor@[rr * m + c] == (rr < rows.len() && c < rows@[rr]@.len()
                        && rows@[rr]@[c] == FLOOR_BYTE),
            decreases n - r,
        {
            let row: &[u8] = if r < rows.len() { rows[r] } else { &[] };
            let mut c: usize = 0;
            proof {
                assert((r + 1) * m <= n * m) by (nonlinear_arith)
                    requires r < n, m >= 0;
            }
            while c < m
                invariant
                    r < n,
                    n * m <= usize::MAX,
                    (r + 1) * m <= n * m,
                    row@ == (if r < rows.len() { rows@[r as int]@ } else { Seq::<u8>::empty() }),
                    c <= m,
                    floor.len() == r * m + c,
                    forall|rr: int, cc: int| 0 <= rr < r && 0 <= cc < m ==>
                        #[trigger] floor@[rr * m + cc] == (rr < rows.len() && cc < rows@[rr]@.len()
                            && rows@[rr]@[cc] == FLOOR_BYTE),
                    forall|cc: int| 0 <= cc < c ==>
                        #[trigger] floor@[r * m + cc] == (r < rows.len() && cc < rows@[r as int]@.len()
                            && rows@[r as int]@[cc] == FLOOR_BYTE),
                decreases m - c,
            {
                proof {
                    assert((r + 1) * m == r * m + m) by (nonlinear_arith);
                }
                let f = c < row.len() && row[c] == FLOOR_BYTE;
                floor.push(f);
                proof {
                    assert forall|rr: int, cc: int| 0 <= rr < r && 0 <= cc < m implies
                        #[trigger] floor@[rr * m + cc] == (rr < rows.len() && cc < rows@[rr]@.len()
                            && rows@[rr]@[cc] == FLOOR_BYTE) by {
                        assert(rr * m + cc < r * m) by (nonlinear_arith)
                            requires rr < r, cc < m, 0 <= rr;
                    }
                }
                c += 1;
            }
            proof {
                assert((r + 1) * m == r * m + m) by (nonlinear_arith);
                lemma_mul_is_distributive_add_other_way(m as int, r as int, 1);
            }
            r += 1;
        }
        Grid { n, m, floor }
    }

    /// Flat index of cell `(r, c)` in the row-major mask.
    pub fn idx(&self, r: usize, c: usize) -> (i: usize)
        requires
            r * self.m + c <= usize::MAX,
        ensures
            i == r * self.m + c,
    {
        proof {
            assert(r * self.m <= r * self.m + c);
        }
        r * self.m + c
    }
}

} // verus!
