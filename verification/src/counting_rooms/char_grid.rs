//! Room counting on the map as read, a grid of characters: each room found
//! is flooded, its floor squares `.` overwritten with walls `#`, either with
//! an explicit stack or by recursion.

use vstd::prelude::*;
use vstd::arithmetic::div_mod::lemma_fundamental_div_mod_converse;
use crate::counting_rooms::{
    adjacent, connected, covered, is_walk, lemma_closed_contains_room, lemma_connected_refl,
    lemma_connected_step, lemma_connected_symm, lemma_connected_trans, lemma_cover_leader,
    lemma_cover_skip, lemma_rooms_before_bound, lemma_unvisited_update, room_count, rooms_before,
    unvisited,
};

verus! {

/// The character of a floor square.
pub const FLOOR: char = '.';

/// The character of a wall, also written over flooded floor.
pub const WALL: char = '#';

/// The character of cell `i` in row-major order, `m` cells to a row.
pub open spec fn cell(grid: Seq<Vec<char>>, m: int, i: int) -> char {
    grid[i / m]@[i % m]
}

/// The first `n` rows hold at least `m` characters each.
pub open spec fn shaped(grid: Seq<Vec<char>>, n: int, m: int) -> bool {
    &&& 0 <= n <= grid.len()
    &&& 0 <= m
    &&& forall|r: int| 0 <= r < n ==> m <= #[trigger] grid[r]@.len()
}

/// Which cells of the first `n` rows and `m` columns are floor, row-major.
pub open spec fn char_floor(grid: Seq<Vec<char>>, n: int, m: int) -> Seq<bool> {
    Seq::new((n * m) as nat, |i: int| cell(grid, m, i) == FLOOR)
}

/// `after` is `before` with the cells of the `n` by `m` corner that `mark`
/// selects overwritten by walls, and nothing else changed.
pub open spec fn painted(
    before: Seq<Vec<char>>,
    after: Seq<Vec<char>>,
    n: int,
    m: int,
    mark: Seq<bool>,
) -> bool {
    &&& after.len() == before.len()
    &&& forall|r: int| 0 <= r < before.len() ==> #[trigger] after[r]@.len() == before[r]@.len()
    &&& forall|r: int, c: int|
        0 <= r < before.len() && 0 <= c < before[r]@.len() ==> #[trigger] after[r]@[c] == if r < n
            && c < m && mark[r * m + c] {
            WALL
        } else {
            before[r]@[c]
        }
}

/// The cells connected to `start` over the cells of `fl`.
pub open spec fn room_mask(fl: Seq<bool>, m: int, start: int) -> Seq<bool> {
    Seq::new(fl.len(), |i: int| connected(fl, m, start, i))
}

/// The cells of `fl` that are no longer floor in `grid`.
pub open spec fn marked(fl: Seq<bool>, grid: Seq<Vec<char>>, m: int) -> Seq<bool> {
    Seq::new(fl.len(), |i: int| fl[i] && cell(grid, m, i) != FLOOR)
}

/// The row-major indices of the cells on a stack of (row, column) pairs.
pub open spec fn flat(stack: Seq<(usize, usize)>, m: int) -> Seq<int> {
    stack.map_values(|p: (usize, usize)| p.0 as int * m + p.1 as int)
}

/// Index arithmetic of a cell in row `r`, column `c`.
pub proof fn lemma_cell(n: int, m: int, r: int, c: int)
    requires
        0 <= r < n,
        0 <= c < m,
    ensures
        0 <= r * m + c < n * m,
        (r * m + c) / m == r,
        (r * m + c) % m == c,
        (r + 1) * m + c == r * m + c + m,
        (r - 1) * m + c == r * m + c - m,
        r * m + c >= r * m,
{
    assert(0 <= r * m + c < n * m) by (nonlinear_arith)
        requires 0 <= r < n, 0 <= c < m;
    lemma_fundamental_div_mod_converse(r * m + c, m, r, c);
    assert((r + 1) * m + c == r * m + c + m) by (nonlinear_arith);
    assert((r - 1) * m + c == r * m + c - m) by (nonlinear_arith);
}

/// A cell index splits into its row and column.
pub proof fn lemma_split(n: int, m: int, i: int)
    requires
        0 <= n,
        0 <= i < n * m,
    ensures
        m > 0,
        0 <= i / m < n,
        0 <= i % m < m,
        i == (i / m) * m + i % m,
{
    if m <= 0 {
        assert(n * m <= 0) by (nonlinear_arith)
            requires m <= 0, n >= 0;
    }
    vstd::arithmetic::div_mod::lemma_fundamental_div_mod(i, m);
    vstd::arithmetic::div_mod::lemma_mod_pos_bound(i, m);
    assert((i / m) * m == m * (i / m)) by (nonlinear_arith);
    if i / m >= n {
        assert((i / m) * m >= n * m) by (nonlinear_arith)
            requires i / m >= n, m > 0;
    }
    if i / m < 0 {
        assert((i / m) * m <= -m) by (nonlinear_arith)
            requires i / m < 0, m > 0;
    }
}

/// The neighbours of the cell in row `r`, column `c` are the cells just above,
/// below, left and right of it inside the grid.
pub proof fn lemma_cell_neighbours(n: int, m: int, r: int, c: int, b: int)
    requires
        0 <= r < n,
        0 <= c < m,
        adjacent(m, n * m, r * m + c, b),
    ensures
        (r > 0 && b == (r - 1) * m + c) || (r + 1 < n && b == (r + 1) * m + c) || (c > 0 && b
            == r * m + (c - 1)) || (c + 1 < m && b == r * m + (c + 1)),
{
    lemma_cell(n, m, r, c);
    let a = r * m + c;
    if b == a + m {
        if r + 1 >= n {
            assert((r + 1) * m + c >= n * m) by (nonlinear_arith)
                requires r + 1 >= n, c >= 0, m > 0;
        }
    } else if a == b + m {
        if r == 0 {
            assert(a == c);
        }
    } else if b == a + 1 && a % m + 1 < m {
    } else {
        assert(a == b + 1 && b % m + 1 < m);
        if c == 0 {
            assert(r >= 1);
            lemma_fundamental_div_mod_converse(b, m, r - 1, m - 1);
            assert(b == (r - 1) * m + (m - 1)) by (nonlinear_arith)
                requires b == r * m - 1;
        }
    }
}

/// A flood fill from `start` over the cells of `fl`: the marked cells lie in
/// the room of `start`, the frontier holds marked cells, and every marked
/// cell off the frontier (other than `pending`, the cell being expanded) has
/// all its floor neighbours marked.
pub open spec fn fill_inv(
    fl: Seq<bool>,
    m: int,
    vis: Seq<bool>,
    start: int,
    frontier: Seq<int>,
    pending: int,
) -> bool {
    &&& vis.len() == fl.len()
    &&& 0 <= start < fl.len()
    &&& fl[start]
    &&& vis[start]
    &&& forall|i: int| 0 <= i < fl.len() && #[trigger] vis[i] ==> connected(fl, m, start, i)
    &&& forall|k: int| 0 <= k < frontier.len() ==> 0 <= #[trigger] frontier[k] < fl.len() && vis[frontier[k]]
    &&& pending >= 0 ==> pending < fl.len() && vis[pending]
    &&& forall|i: int, j: int|
        0 <= i < fl.len() && #[trigger] vis[i] && !frontier.contains(i) && i != pending
            && #[trigger] adjacent(m, fl.len() as int, i, j) && fl[j] ==> vis[j]
}

/// The fill begins with only `start` marked and on the frontier.
proof fn lemma_fill_begin(fl: Seq<bool>, m: int, vis: Seq<bool>, start: int)
    requires
        0 <= start < fl.len(),
        fl[start],
        vis.len() == fl.len(),
        forall|i: int| 0 <= i < vis.len() ==> (vis[i] <==> i == start),
    ensures
        fill_inv(fl, m, vis, start, seq![start], -1),
{
    lemma_connected_refl(fl, m, start);
    assert(seq![start][0] == start);
}

/// Taking the last cell off the frontier makes it the pending cell.
proof fn lemma_fill_take(fl: Seq<bool>, m: int, vis: Seq<bool>, start: int, frontier: Seq<int>)
    requires
        fill_inv(fl, m, vis, start, frontier, -1),
        frontier.len() > 0,
    ensures
        fill_inv(fl, m, vis, start, frontier.drop_last(), frontier.last()),
{
    let rest = frontier.drop_last();
    assert forall|i: int, j: int|
        0 <= i < fl.len() && #[trigger] vis[i] && !rest.contains(i) && i != frontier.last()
            && #[trigger] adjacent(m, fl.len() as int, i, j) && fl[j] implies vis[j] by {
        if frontier.contains(i) {
            let x = choose|x: int| 0 <= x < frontier.len() && frontier[x] == i;
            assert(x < frontier.len() - 1);
            assert(rest[x] == i);
        }
    }
}

/// Marking a floor neighbour `b` of the pending cell and putting it on the
/// frontier keeps the fill invariant.
proof fn lemma_fill_visit(fl: Seq<bool>, m: int, vis: Seq<bool>, start: int, frontier: Seq<int>, cur: int, b: int)
    requires
        fill_inv(fl, m, vis, start, frontier, cur),
        cur >= 0,
        adjacent(m, fl.len() as int, cur, b),
        fl[b],
        !vis[b],
    ensures
        fill_inv(fl, m, vis.update(b, true), start, frontier.push(b), cur),
{
    let v2 = vis.update(b, true);
    let f2 = frontier.push(b);
    lemma_connected_step(fl, m, start, cur, b);
    assert forall|k: int| 0 <= k < f2.len() implies 0 <= #[trigger] f2[k] < fl.len() && v2[f2[k]] by {
        if k < frontier.len() {
            assert(f2[k] == frontier[k]);
        }
    }
    assert forall|i: int, j: int|
        0 <= i < fl.len() && #[trigger] v2[i] && !f2.contains(i) && i != cur
            && #[trigger] adjacent(m, fl.len() as int, i, j) && fl[j] implies v2[j] by {
        if i == b {
            assert(f2[f2.len() - 1] == b);
        } else {
            assert(vis[i]);
            if frontier.contains(i) {
                let x = choose|x: int| 0 <= x < frontier.len() && frontier[x] == i;
                assert(f2[x] == i);
            }
        }
    }
}

/// When the frontier runs dry, the marked cells are exactly the room of
/// `start`.
proof fn lemma_fill_end(fl: Seq<bool>, m: int, vis: Seq<bool>, start: int)
    requires
        fill_inv(fl, m, vis, start, Seq::empty(), -1),
    ensures
        vis == room_mask(fl, m, start),
{
    assert forall|i: int| 0 <= i < fl.len() implies vis[i] == room_mask(fl, m, start)[i] by {
        if connected(fl, m, start, i) {
            assert forall|x: int, y: int|
                0 <= x < vis.len() && #[trigger] vis[x] && #[trigger] adjacent(m, fl.len() as int, x, y)
                    && fl[y] implies vis[y] by {
                assert(!Seq::<int>::empty().contains(x));
            }
            lemma_closed_contains_room(fl, m, vis, start, i);
        }
    }
    assert(vis =~= room_mask(fl, m, start));
}

/// Marking the floor square in row `r`, column `c`.
proof fn lemma_mark_cell(
    fl: Seq<bool>,
    old_g: Seq<Vec<char>>,
    g: Seq<Vec<char>>,
    g2: Seq<Vec<char>>,
    n: int,
    m: int,
    r: int,
    c: int,
)
    requires
        shaped(g, n, m),
        fl.len() == n * m,
        0 <= r < n,
        0 <= c < m,
        fl[r * m + c],
        painted(old_g, g, n, m, marked(fl, g, m)),
        g2.len() == g.len(),
        forall|rr: int| 0 <= rr < g.len() && rr != r ==> #[trigger] g2[rr]@ == g[rr]@,
        g2[r]@ == g[r]@.update(c, WALL),
    ensures
        marked(fl, g2, m) == marked(fl, g, m).update(r * m + c, true),
        painted(old_g, g2, n, m, marked(fl, g2, m)),
        shaped(g2, n, m),
{
    lemma_cell(n, m, r, c);
    let k = r * m + c;
    let mk = marked(fl, g, m);
    let mk2 = marked(fl, g2, m);
    assert forall|i: int| 0 <= i < fl.len() implies mk2[i] == mk.update(k, true)[i] by {
        let rr = i / m;
        let cc = i % m;
        lemma_split(n, m, i);
        if i != k {
            if rr == r {
                assert(cc != c);
            }
            assert(cell(g2, m, i) == cell(g, m, i));
        }
    }
    assert(mk2 =~= mk.update(k, true));
    assert forall|rr: int, cc: int|
        0 <= rr < old_g.len() && 0 <= cc < old_g[rr]@.len() implies #[trigger] g2[rr]@[cc] == if rr
        < n && cc < m && mk2[rr * m + cc] {
        WALL
    } else {
        old_g[rr]@[cc]
    } by {
        if rr < n && cc < m {
            lemma_cell(n, m, rr, cc);
        }
    }
}

/// Marks the cell in row `nr`, column `nc`, a neighbour of the pending cell,
/// and stacks it, when it is still floor.
fn try_mark(
    grid: &mut Vec<Vec<char>>,
    stack: &mut Vec<(usize, usize)>,
    nr: usize,
    nc: usize,
    Ghost(fl): Ghost<Seq<bool>>,
    Ghost(old_g): Ghost<Seq<Vec<char>>>,
    Ghost(n): Ghost<int>,
    Ghost(m): Ghost<int>,
    Ghost(start): Ghost<int>,
    Ghost(cur): Ghost<int>,
)
    requires
        shaped(old(grid)@, n, m),
        fl.len() == n * m,
        0 <= start < n * m,
        fl == char_floor(old_g, n, m).update(start, true),
        nr < n,
        nc < m,
        cur >= 0,
        adjacent(m, fl.len() as int, cur, nr * m + nc),
        painted(old_g, old(grid)@, n, m, marked(fl, old(grid)@, m)),
        fill_inv(fl, m, marked(fl, old(grid)@, m), start, flat(old(stack)@, m), cur),
    ensures
        shaped(final(grid)@, n, m),
        painted(old_g, final(grid)@, n, m, marked(fl, final(grid)@, m)),
        fill_inv(fl, m, marked(fl, final(grid)@, m), start, flat(final(stack)@, m), cur),
        fl[nr * m + nc] ==> marked(fl, final(grid)@, m)[nr * m + nc],
        forall|x: int|
            0 <= x < fl.len() && marked(fl, old(grid)@, m)[x] ==> marked(fl, final(grid)@, m)[x],
        unvisited(marked(fl, final(grid)@, m)) <= unvisited(marked(fl, old(grid)@, m)),
        unvisited(marked(fl, final(grid)@, m)) == unvisited(marked(fl, old(grid)@, m))
            ==> final(stack)@ == old(stack)@,
        final(stack)@ == old(stack)@ || final(stack)@ == old(stack)@.push((nr, nc)),
{
    proof {
        lemma_cell(n, m, nr as int, nc as int);
    }
    if grid[nr][nc] == FLOOR {
        let ghost g = grid@;
        let ghost b = nr * m + nc;
        proof {
            assert(cell(g, m, b) == FLOOR);
            assert(g[nr as int]@[nc as int] == FLOOR);
            assert(g[nr as int]@.len() >= m);
            assert(old_g[nr as int]@.len() == g[nr as int]@.len());
            assert(!marked(fl, g, m)[b]);
            assert(old_g[nr as int]@[nc as int] == FLOOR);
            assert(fl[b]);
            lemma_fill_visit(fl, m, marked(fl, g, m), start, flat(stack@, m), cur, b);
            lemma_unvisited_update(marked(fl, g, m), b);
        }
        grid[nr].set(nc, WALL);
        proof {
            lemma_mark_cell(fl, old_g, g, grid@, n, m, nr as int, nc as int);
        }
        stack.push((nr, nc));
        proof {
            assert(flat(stack@, m) =~= flat(old(stack)@, m).push(b));
        }
    } else {
        proof {
            if fl[nr * m + nc] {
                assert(cell(grid@, m, nr * m + nc) != FLOOR);
            }
        }
    }
}

/// Floods the room of the cell in row `row`, column `col` with an explicit
/// stack: that cell, and every floor square connected to it through floor
/// squares, becomes a wall. Nothing else changes.
pub fn flood_fill_iterative(grid: &mut Vec<Vec<char>>, row: usize, col: usize, n: usize, m: usize)
    requires
        shaped(old(grid)@, n as int, m as int),
        row < n,
        col < m,
    ensures
        painted(
            old(grid)@,
            final(grid)@,
            n as int,
            m as int,
            room_mask(
                char_floor(old(grid)@, n as int, m as int).update(row * m + col, true),
                m as int,
                row * m + col,
            ),
        ),
{
    let ghost old_g = grid@;
    let ghost mm = m as int;
    let ghost nn = n as int;
    let ghost start = row * m + col;
    let ghost fl = char_floor(old_g, nn, mm).update(start, true);
    proof {
        lemma_cell(nn, mm, row as int, col as int);
    }
    grid[row].set(col, WALL);
    proof {
        let mk = marked(fl, grid@, mm);
        assert forall|i: int| 0 <= i < mk.len() implies (mk[i] <==> i == start) by {
            let rr = i / mm;
            let cc = i % mm;
            lemma_split(nn, mm, i);
            if i != start && rr == row {
                assert(cc != col);
            }
        }
        lemma_fill_begin(fl, mm, mk, start);
        assert forall|rr: int, cc: int|
            0 <= rr < old_g.len() && 0 <= cc < old_g[rr]@.len() implies #[trigger] grid@[rr]@[cc]
            == if rr < nn && cc < mm && mk[rr * mm + cc] {
            WALL
        } else {
            old_g[rr]@[cc]
        } by {
            if rr < nn && cc < mm {
                lemma_cell(nn, mm, rr, cc);
            }
        }
    }
    let mut stack: Vec<(usize, usize)> = Vec::new();
    stack.push((row, col));
    proof {
        assert(flat(stack@, mm) =~= seq![start]);
    }
    while stack.len() > 0
        invariant
            nn == n,
            mm == m,
            fl.len() == nn * mm,
            0 <= start < nn * mm,
            fl == char_floor(old_g, nn, mm).update(start, true),
            shaped(grid@, nn, mm),
            painted(old_g, grid@, nn, mm, marked(fl, grid@, mm)),
            fill_inv(fl, mm, marked(fl, grid@, mm), start, flat(stack@, mm), -1),
            forall|k: int| 0 <= k < stack@.len() ==> (#[trigger] stack@[k]).0 < n && stack@[k].1 < m,
        decreases unvisited(marked(fl, grid@, mm)), stack@.len(),
    {
        let ghost before = stack@;
        let (r, c) = stack.pop().unwrap();
        let ghost cur = r * m + c;
        proof {
            assert(flat(stack@, mm) =~= flat(before, mm).drop_last());
            lemma_fill_take(fl, mm, marked(fl, grid@, mm), start, flat(before, mm));
            lemma_cell(nn, mm, r as int, c as int);
        }
        let ghost vis0 = marked(fl, grid@, mm);
        if r > 0 {
            proof {
                lemma_cell(nn, mm, r - 1, c as int);
            }
            try_mark(grid, &mut stack, r - 1, c, Ghost(fl), Ghost(old_g), Ghost(nn), Ghost(mm), Ghost(start), Ghost(cur));
        }
        if r + 1 < n {
            proof {
                lemma_cell(nn, mm, r + 1, c as int);
            }
            try_mark(grid, &mut stack, r + 1, c, Ghost(fl), Ghost(old_g), Ghost(nn), Ghost(mm), Ghost(start), Ghost(cur));
        }
        if c > 0 {
            proof {
                lemma_cell(nn, mm, r as int, c - 1);
            }
            try_mark(grid, &mut stack, r, c - 1, Ghost(fl), Ghost(old_g), Ghost(nn), Ghost(mm), Ghost(start), Ghost(cur));
        }
        if c + 1 < m {
            proof {
                lemma_cell(nn, mm, r as int, c + 1);
            }
            try_mark(grid, &mut stack, r, c + 1, Ghost(fl), Ghost(old_g), Ghost(nn), Ghost(mm), Ghost(start), Ghost(cur));
        }
        proof {
            let vis = marked(fl, grid@, mm);
            assert forall|b: int| #[trigger] adjacent(mm, fl.len() as int, cur, b) && fl[b] implies vis[b] by {
                lemma_cell_neighbours(nn, mm, r as int, c as int, b);
            }
        }
    }
    proof {
        assert(flat(stack@, mm) =~= Seq::<int>::empty());
        lemma_fill_end(fl, mm, marked(fl, grid@, mm), start);
    }
}

/// The number of set entries of `s`.
pub open spec fn open_count(s: Seq<bool>) -> nat
    decreases s.len(),
{
    if s.len() == 0 {
        0
    } else {
        open_count(s.drop_last()) + if s.last() {
            1nat
        } else {
            0nat
        }
    }
}

/// Clearing entries never raises the count, and clearing one lowers it.
proof fn lemma_open_count_mono(s1: Seq<bool>, s2: Seq<bool>, w: int)
    requires
        s1.len() == s2.len(),
        forall|i: int| 0 <= i < s2.len() && #[trigger] s2[i] ==> s1[i],
    ensures
        open_count(s2) <= open_count(s1),
        0 <= w < s1.len() && s1[w] && !s2[w] ==> open_count(s2) < open_count(s1),
    decreases s1.len(),
{
    if s1.len() > 0 {
        let a = s1.drop_last();
        let b = s2.drop_last();
        assert forall|i: int| 0 <= i < b.len() && #[trigger] b[i] implies a[i] by {
            assert(s2[i]);
        }
        lemma_open_count_mono(a, b, w);
    }
}

/// `after` is `before` with the cell in row `r`, column `c` overwritten.
pub open spec fn one_cell_set(
    before: Seq<Vec<char>>,
    after: Seq<Vec<char>>,
    r: int,
    c: int,
    ch: char,
) -> bool {
    &&& after.len() == before.len()
    &&& forall|rr: int| 0 <= rr < before.len() && rr != r ==> #[trigger] after[rr]@ == before[rr]@
    &&& after[r]@ == before[r]@.update(c, ch)
}

/// Walling the start cell paints exactly that cell.
proof fn lemma_paint_start(old_g: Seq<Vec<char>>, g: Seq<Vec<char>>, n: int, m: int, r: int, c: int)
    requires
        shaped(old_g, n, m),
        0 <= r < n,
        0 <= c < m,
        one_cell_set(old_g, g, r, c, WALL),
    ensures
        painted(old_g, g, n, m, Seq::new((n * m) as nat, |i: int| i == r * m + c)),
        shaped(g, n, m),
{
    let mk = Seq::new((n * m) as nat, |i: int| i == r * m + c);
    assert forall|rr: int, cc: int|
        0 <= rr < old_g.len() && 0 <= cc < old_g[rr]@.len() implies #[trigger] g[rr]@[cc] == if rr
        < n && cc < m && mk[rr * m + cc] {
        WALL
    } else {
        old_g[rr]@[cc]
    } by {
        if rr < n && cc < m {
            lemma_cell(n, m, rr, cc);
            lemma_cell(n, m, r, c);
            if rr * m + cc == r * m + c {
                assert(rr == r && cc == c);
            }
        }
    }
}

/// A connection over fewer floor cells is a connection over more.
proof fn lemma_connected_sub(small: Seq<bool>, big: Seq<bool>, m: int, a: int, b: int)
    requires
        small.len() == big.len(),
        forall|i: int| 0 <= i < small.len() && #[trigger] small[i] ==> big[i],
        connected(small, m, a, b),
    ensures
        connected(big, m, a, b),
{
    let w = choose|w: Seq<int>| #[trigger] is_walk(small, m, w) && w[0] == a && w.last() == b;
    assert forall|k: int| 0 <= k < w.len() implies 0 <= #[trigger] w[k] < big.len() && big[w[k]] by {
        assert(small[w[k]]);
    }
    assert(is_walk(big, m, w));
}

/// The state of a recursive flood from `start`: `mk` holds the cells walled
/// so far, all in the room of `start`, and every one of them but `start`
/// has all its floor neighbours walled.
pub open spec fn flood_state(
    old_g: Seq<Vec<char>>,
    g: Seq<Vec<char>>,
    n: int,
    m: int,
    fl: Seq<bool>,
    start: int,
    mk: Seq<bool>,
) -> bool {
    &&& shaped(g, n, m)
    &&& fl.len() == n * m
    &&& mk.len() == fl.len()
    &&& 0 <= start < fl.len()
    &&& fl == char_floor(old_g, n, m).update(start, true)
    &&& mk[start]
    &&& forall|i: int| 0 <= i < mk.len() && #[trigger] mk[i] ==> connected(fl, m, start, i)
    &&& forall|i: int, j: int|
        0 <= i < mk.len() && #[trigger] mk[i] && i != start && #[trigger] adjacent(
            m,
            fl.len() as int,
            i,
            j,
        ) && fl[j] ==> mk[j]
    &&& painted(old_g, g, n, m, mk)
}

/// What is still floor during a recursive flood: the start's room minus
/// what has been walled.
proof fn lemma_flood_floor(
    old_g: Seq<Vec<char>>,
    g: Seq<Vec<char>>,
    n: int,
    m: int,
    fl: Seq<bool>,
    start: int,
    mk: Seq<bool>,
)
    requires
        flood_state(old_g, g, n, m, fl, start, mk),
    ensures
        forall|i: int| 0 <= i < fl.len() ==> #[trigger] char_floor(g, n, m)[i] == (fl[i] && !mk[i]),
{
    assert forall|i: int| 0 <= i < fl.len() implies #[trigger] char_floor(g, n, m)[i] == (fl[i]
        && !mk[i]) by {
        lemma_split(n, m, i);
        let r = i / m;
        let c = i % m;
        assert(g[r]@.len() >= m);
        assert(g[r]@[c] == if r < n && c < m && mk[r * m + c] {
            WALL
        } else {
            old_g[r]@[c]
        });
        if mk[i] {
            let ww = choose|w: Seq<int>| #[trigger] is_walk(fl, m, w) && w[0] == start && w.last() == i;
            assert(fl[ww[ww.len() - 1]]);
        }
    }
}

/// After a recursive flood from the floor neighbour `nb` of `start`, the
/// cells it walled join `mk`, and the flood state still holds.
proof fn lemma_spread(
    old_g: Seq<Vec<char>>,
    g1: Seq<Vec<char>>,
    g2: Seq<Vec<char>>,
    n: int,
    m: int,
    fl: Seq<bool>,
    start: int,
    mk: Seq<bool>,
    nb: int,
) -> (mk2: Seq<bool>)
    requires
        flood_state(old_g, g1, n, m, fl, start, mk),
        0 <= nb < n * m,
        adjacent(m, n * m, start, nb),
        char_floor(g1, n, m)[nb],
        painted(g1, g2, n, m, room_mask(char_floor(g1, n, m).update(nb, true), m, nb)),
        shaped(g2, n, m),
    ensures
        flood_state(old_g, g2, n, m, fl, start, mk2),
        forall|i: int| 0 <= i < mk.len() && #[trigger] mk[i] ==> mk2[i],
        mk2[nb],
{
    lemma_flood_floor(old_g, g1, n, m, fl, start, mk);
    let f1 = char_floor(g1, n, m);
    assert(f1.update(nb, true) =~= f1);
    let room = room_mask(f1, m, nb);
    let mk2 = Seq::new(mk.len(), |i: int| mk[i] || room[i]);
    assert(fl[nb] && fl[start]);
    lemma_connected_refl(fl, m, start);
    lemma_connected_step(fl, m, start, start, nb);
    lemma_connected_refl(f1, m, nb);
    assert forall|i: int| 0 <= i < f1.len() && #[trigger] f1[i] implies fl[i] by {}
    assert forall|i: int| 0 <= i < mk2.len() && #[trigger] mk2[i] implies connected(fl, m, start, i) by {
        if !mk[i] {
            lemma_connected_sub(f1, fl, m, nb, i);
            lemma_connected_trans(fl, m, start, nb, i);
        }
    }
    assert forall|i: int, j: int|
        0 <= i < mk2.len() && #[trigger] mk2[i] && i != start && #[trigger] adjacent(
            m,
            fl.len() as int,
            i,
            j,
        ) && fl[j] implies mk2[j] by {
        if !mk[i] && !mk[j] {
            assert(f1[j]);
            lemma_connected_step(f1, m, nb, i, j);
        }
    }
    assert forall|r: int, c: int|
        0 <= r < old_g.len() && 0 <= c < old_g[r]@.len() implies #[trigger] g2[r]@[c] == if r < n
        && c < m && mk2[r * m + c] {
        WALL
    } else {
        old_g[r]@[c]
    } by {
        assert(g1[r]@.len() == old_g[r]@.len());
        assert(g1[r]@[c] == if r < n && c < m && mk[r * m + c] {
            WALL
        } else {
            old_g[r]@[c]
        });
        assert(g2[r]@[c] == if r < n && c < m && room[r * m + c] {
            WALL
        } else {
            g1[r]@[c]
        });
        if r < n && c < m {
            lemma_cell(n, m, r, c);
            assert(mk2[r * m + c] == (mk[r * m + c] || room[r * m + c]));
        }
    }
    mk2
}

/// Floods the room of the cell in row `row`, column `col` by recursion:
/// that cell, and every floor square connected to it through floor squares,
/// becomes a wall. Nothing else changes. Each call walls one square and
/// recurses into each neighbour that is still floor, so a large room means
/// a deep call stack.
#[verifier::spinoff_prover]
#[verifier::rlimit(80)]
pub fn flood_fill_recursive(grid: &mut Vec<Vec<char>>, row: usize, col: usize, n: usize, m: usize)
    requires
        shaped(old(grid)@, n as int, m as int),
        row < n,
        col < m,
    ensures
        painted(
            old(grid)@,
            final(grid)@,
            n as int,
            m as int,
            room_mask(
                char_floor(old(grid)@, n as int, m as int).update(row * m + col, true),
                m as int,
                row * m + col,
            ),
        ),
    decreases
        open_count(char_floor(old(grid)@, n as int, m as int)),
        if old(grid)@[row as int]@[col as int] == FLOOR {
            0int
        } else {
            1int
        },
{
    let ghost old_g = grid@;
    let ghost nn = n as int;
    let ghost mm = m as int;
    let ghost start = row * m + col;
    let ghost fl = char_floor(old_g, nn, mm).update(start, true);
    proof {
        lemma_cell(nn, mm, row as int, col as int);
    }
    grid[row].set(col, WALL);
    let ghost mut mk = Seq::new((nn * mm) as nat, |i: int| i == start);
    proof {
        lemma_paint_start(old_g, grid@, nn, mm, row as int, col as int);
        lemma_connected_refl(fl, mm, start);
        assert(flood_state(old_g, grid@, nn, mm, fl, start, mk));
    }
    if row > 0 {
        let ghost nb = start - mm;
        proof {
            lemma_cell(nn, mm, row - 1, col as int);
        }
        if grid[row - 1][col] == FLOOR {
            let ghost g1 = grid@;
            proof {
                lemma_flood_floor(old_g, g1, nn, mm, fl, start, mk);
                lemma_open_count_mono(char_floor(old_g, nn, mm), char_floor(g1, nn, mm), start);
            }
            flood_fill_recursive(grid, row - 1, col, n, m);
            proof {
                mk = lemma_spread(old_g, g1, grid@, nn, mm, fl, start, mk, nb);
            }
        } else {
            proof {
                lemma_flood_floor(old_g, grid@, nn, mm, fl, start, mk);
            }
        }
        assert(fl[nb] ==> mk[nb]);
    }
    let ghost mk_up = mk;
    if row + 1 < n {
        let ghost nb = start + mm;
        proof {
            lemma_cell(nn, mm, row + 1, col as int);
        }
        if grid[row + 1][col] == FLOOR {
            let ghost g1 = grid@;
            proof {
                lemma_flood_floor(old_g, g1, nn, mm, fl, start, mk);
                lemma_open_count_mono(char_floor(old_g, nn, mm), char_floor(g1, nn, mm), start);
            }
            flood_fill_recursive(grid, row + 1, col, n, m);
            proof {
                mk = lemma_spread(old_g, g1, grid@, nn, mm, fl, start, mk, nb);
            }
        } else {
            proof {
                lemma_flood_floor(old_g, grid@, nn, mm, fl, start, mk);
            }
        }
        assert(fl[nb] ==> mk[nb]);
    }
    let ghost mk_down = mk;
    if col > 0 {
        let ghost nb = start - 1;
        proof {
            lemma_cell(nn, mm, row as int, col - 1);
        }
        if grid[row][col - 1] == FLOOR {
            let ghost g1 = grid@;
            proof {
                lemma_flood_floor(old_g, g1, nn, mm, fl, start, mk);
                lemma_open_count_mono(char_floor(old_g, nn, mm), char_floor(g1, nn, mm), start);
            }
            flood_fill_recursive(grid, row, col - 1, n, m);
            proof {
                mk = lemma_spread(old_g, g1, grid@, nn, mm, fl, start, mk, nb);
            }
        } else {
            proof {
                lemma_flood_floor(old_g, grid@, nn, mm, fl, start, mk);
            }
        }
        assert(fl[nb] ==> mk[nb]);
    }
    let ghost mk_left = mk;
    if col + 1 < m {
        let ghost nb = start + 1;
        proof {
            lemma_cell(nn, mm, row as int, col + 1);
        }
        if grid[row][col + 1] == FLOOR {
            let ghost g1 = grid@;
            proof {
                lemma_flood_floor(old_g, g1, nn, mm, fl, start, mk);
                lemma_open_count_mono(char_floor(old_g, nn, mm), char_floor(g1, nn, mm), start);
            }
            flood_fill_recursive(grid, row, col + 1, n, m);
            proof {
                mk = lemma_spread(old_g, g1, grid@, nn, mm, fl, start, mk, nb);
            }
        } else {
            proof {
                lemma_flood_floor(old_g, grid@, nn, mm, fl, start, mk);
            }
        }
        assert(fl[nb] ==> mk[nb]);
    }
    proof {
        assert forall|b: int| #[trigger] adjacent(mm, fl.len() as int, start, b) && fl[b] implies mk[b] by {
            lemma_cell_neighbours(nn, mm, row as int, col as int, b);
            if row > 0 && b == start - mm {
                assert(mk_up[b]);
            } else if row + 1 < n && b == start + mm {
                assert(mk_down[b]);
            } else if col > 0 && b == start - 1 {
                assert(mk_left[b]);
            }
        }
        assert forall|x: int, y: int|
            0 <= x < mk.len() && #[trigger] mk[x] && #[trigger] adjacent(mm, fl.len() as int, x, y)
                && fl[y] implies mk[y] by {
            if x == start {
                assert(adjacent(mm, fl.len() as int, start, y));
            }
        }
        assert forall|i: int| 0 <= i < fl.len() implies mk[i] == room_mask(fl, mm, start)[i] by {
            if connected(fl, mm, start, i) {
                lemma_closed_contains_room(fl, mm, mk, start, i);
            }
        }
        assert(mk =~= room_mask(fl, mm, start));
    }
}

/// The cells covered by the rooms of the cells before `k`.
pub open spec fn covered_mask(fl: Seq<bool>, m: int, k: int) -> Seq<bool> {
    Seq::new(fl.len(), |i: int| covered(fl, m, k, i))
}

/// Every cell of a walk is connected to its first cell.
proof fn lemma_walk_prefix(fl: Seq<bool>, m: int, w: Seq<int>, j: int)
    requires
        is_walk(fl, m, w),
        0 <= j < w.len(),
    ensures
        connected(fl, m, w[0], w[j]),
{
    let p = w.take(j + 1);
    assert forall|k: int| 0 <= k < p.len() - 1 implies #[trigger] adjacent(m, fl.len() as int, p[k], p[k + 1]) by {
        assert(adjacent(m, fl.len() as int, w[k], w[k + 1]));
    }
    assert(is_walk(fl, m, p));
}

/// Removing the rooms of earlier cells leaves the room of a cell that none
/// of them covers unchanged.
proof fn lemma_room_unchanged(fl0: Seq<bool>, f: Seq<bool>, m: int, k: int)
    requires
        f.len() == fl0.len(),
        forall|i: int| 0 <= i < f.len() ==> #[trigger] f[i] == (fl0[i] && !covered(fl0, m, k, i)),
        0 <= k < fl0.len(),
        fl0[k],
        !covered(fl0, m, k, k),
    ensures
        forall|i: int| connected(f, m, k, i) == #[trigger] connected(fl0, m, k, i),
{
    assert forall|i: int| connected(f, m, k, i) == #[trigger] connected(fl0, m, k, i) by {
        if connected(f, m, k, i) {
            assert forall|x: int| 0 <= x < f.len() && #[trigger] f[x] implies fl0[x] by {}
            lemma_connected_sub(f, fl0, m, k, i);
        }
        if connected(fl0, m, k, i) {
            let w = choose|w: Seq<int>| #[trigger] is_walk(fl0, m, w) && w[0] == k && w.last() == i;
            assert forall|j: int| 0 <= j < w.len() implies 0 <= #[trigger] w[j] < f.len() && f[w[j]] by {
                lemma_walk_prefix(fl0, m, w, j);
                if covered(fl0, m, k, w[j]) {
                    let x = choose|x: int| 0 <= x < k && #[trigger] connected(fl0, m, x, w[j]);
                    lemma_connected_symm(fl0, m, k, w[j]);
                    lemma_connected_trans(fl0, m, x, w[j], k);
                    assert(covered(fl0, m, k, k));
                }
            }
            assert(is_walk(f, m, w));
        }
    }
}

/// What is still floor during the scan: the floor not yet covered.
proof fn lemma_scan_floor(old_g: Seq<Vec<char>>, g: Seq<Vec<char>>, n: int, m: int, k: int)
    requires
        shaped(old_g, n, m),
        painted(old_g, g, n, m, covered_mask(char_floor(old_g, n, m), m, k)),
    ensures
        forall|i: int|
            0 <= i < n * m ==> #[trigger] char_floor(g, n, m)[i] == (char_floor(old_g, n, m)[i]
                && !covered(char_floor(old_g, n, m), m, k, i)),
{
    let fl0 = char_floor(old_g, n, m);
    assert forall|i: int| 0 <= i < n * m implies #[trigger] char_floor(g, n, m)[i] == (fl0[i]
        && !covered(fl0, m, k, i)) by {
        lemma_split(n, m, i);
        let r = i / m;
        let c = i % m;
        assert(old_g[r]@.len() >= m);
        assert(g[r]@[c] == if r < n && c < m && covered_mask(fl0, m, k)[r * m + c] {
            WALL
        } else {
            old_g[r]@[c]
        });
        if covered(fl0, m, k, i) {
            let x = choose|x: int| 0 <= x < k && #[trigger] connected(fl0, m, x, i);
            let w = choose|w: Seq<int>| #[trigger] is_walk(fl0, m, w) && w[0] == x && w.last() == i;
            assert(fl0[w[w.len() - 1]]);
        }
    }
}

/// Flooding the room of an uncovered floor cell `k` walls what the rooms of
/// the cells up to `k` cover.
proof fn lemma_scan_flood(old_g: Seq<Vec<char>>, g1: Seq<Vec<char>>, g2: Seq<Vec<char>>, n: int, m: int, r: int, c: int)
    requires
        shaped(old_g, n, m),
        0 <= r < n,
        0 <= c < m,
        painted(old_g, g1, n, m, covered_mask(char_floor(old_g, n, m), m, r * m + c)),
        g1[r]@[c] == FLOOR,
        painted(
            g1,
            g2,
            n,
            m,
            room_mask(char_floor(g1, n, m).update(r * m + c, true), m, r * m + c),
        ),
    ensures
        painted(old_g, g2, n, m, covered_mask(char_floor(old_g, n, m), m, r * m + c + 1)),
        char_floor(old_g, n, m)[r * m + c],
        !covered(char_floor(old_g, n, m), m, r * m + c, r * m + c),
{
    let fl0 = char_floor(old_g, n, m);
    let k = r * m + c;
    lemma_cell(n, m, r, c);
    lemma_scan_floor(old_g, g1, n, m, k);
    let f1 = char_floor(g1, n, m);
    assert(f1[k]);
    assert(f1.update(k, true) =~= f1);
    lemma_room_unchanged(fl0, f1, m, k);
    let cov = covered_mask(fl0, m, k);
    let cov2 = covered_mask(fl0, m, k + 1);
    let room = room_mask(f1, m, k);
    assert forall|i: int| 0 <= i < fl0.len() implies cov2[i] == (cov[i] || room[i]) by {
        if covered(fl0, m, k + 1, i) {
            let x = choose|x: int| 0 <= x < k + 1 && #[trigger] connected(fl0, m, x, i);
            if x < k {
                assert(covered(fl0, m, k, i));
            } else {
                assert(connected(f1, m, k, i));
            }
        }
        if cov[i] {
            let x = choose|x: int| 0 <= x < k && #[trigger] connected(fl0, m, x, i);
            assert(covered(fl0, m, k + 1, i));
        }
        if room[i] {
            assert(connected(fl0, m, k, i));
            assert(covered(fl0, m, k + 1, i));
        }
    }
    assert forall|rr: int, cc: int|
        0 <= rr < old_g.len() && 0 <= cc < old_g[rr]@.len() implies #[trigger] g2[rr]@[cc] == if rr
        < n && cc < m && cov2[rr * m + cc] {
        WALL
    } else {
        old_g[rr]@[cc]
    } by {
        assert(g1[rr]@.len() == old_g[rr]@.len());
        assert(g1[rr]@[cc] == if rr < n && cc < m && cov[rr * m + cc] {
            WALL
        } else {
            old_g[rr]@[cc]
        });
        assert(g2[rr]@[cc] == if rr < n && cc < m && room[rr * m + cc] {
            WALL
        } else {
            g1[rr]@[cc]
        });
        if rr < n && cc < m {
            lemma_cell(n, m, rr, cc);
        }
    }
}

/// Passing over a cell that is not floor (any more) covers nothing new.
proof fn lemma_scan_skip(old_g: Seq<Vec<char>>, g: Seq<Vec<char>>, n: int, m: int, r: int, c: int)
    requires
        shaped(old_g, n, m),
        0 <= r < n,
        0 <= c < m,
        painted(old_g, g, n, m, covered_mask(char_floor(old_g, n, m), m, r * m + c)),
        g[r]@[c] != FLOOR,
    ensures
        painted(old_g, g, n, m, covered_mask(char_floor(old_g, n, m), m, r * m + c + 1)),
        !crate::counting_rooms::is_leader(char_floor(old_g, n, m), m, r * m + c),
{
    let fl0 = char_floor(old_g, n, m);
    let k = r * m + c;
    lemma_cell(n, m, r, c);
    let cov = covered_mask(fl0, m, k);
    assert(old_g[r]@.len() >= m);
    assert(g[r]@[c] == if r < n && c < m && cov[k] {
        WALL
    } else {
        old_g[r]@[c]
    });
    lemma_cover_skip(fl0, m, cov, k);
    assert(covered_mask(fl0, m, k + 1) =~= cov);
}

/// Scans the map row by row; each floor square not yet walled starts a new
/// room, which is then flooded.
fn scan(grid: &mut Vec<Vec<char>>, n: usize, m: usize, recursive: bool) -> (rooms: u32)
    requires
        shaped(old(grid)@, n as int, m as int),
        n * m <= u32::MAX,
    ensures
        rooms == room_count(char_floor(old(grid)@, n as int, m as int), m as int),
        painted(
            old(grid)@,
            final(grid)@,
            n as int,
            m as int,
            char_floor(old(grid)@, n as int, m as int),
        ),
{
    let ghost old_g = grid@;
    let ghost nn = n as int;
    let ghost mm = m as int;
    let ghost fl0 = char_floor(old_g, nn, mm);
    proof {
        assert(covered_mask(fl0, mm, 0) =~= Seq::new(fl0.len(), |i: int| false));
        assert forall|rr: int, cc: int|
            0 <= rr < old_g.len() && 0 <= cc < old_g[rr]@.len() implies #[trigger] grid@[rr]@[cc]
            == if rr < nn && cc < mm && covered_mask(fl0, mm, 0)[rr * mm + cc] {
            WALL
        } else {
            old_g[rr]@[cc]
        } by {
            if rr < nn && cc < mm {
                lemma_cell(nn, mm, rr, cc);
            }
        }
    }
    let mut rooms: u32 = 0;
    let mut r: usize = 0;
    while r < n
        invariant
            nn == n,
            mm == m,
            shaped(old_g, nn, mm),
            fl0 == char_floor(old_g, nn, mm),
            n * m <= u32::MAX,
            r <= n,
            shaped(grid@, nn, mm),
            painted(old_g, grid@, nn, mm, covered_mask(fl0, mm, r * mm)),
            rooms == rooms_before(fl0, mm, r * mm),
        decreases n - r,
    {
        let mut c: usize = 0;
        while c < m
            invariant
                nn == n,
                mm == m,
                shaped(old_g, nn, mm),
                fl0 == char_floor(old_g, nn, mm),
                n * m <= u32::MAX,
                r < n,
                c <= m,
                shaped(grid@, nn, mm),
                painted(old_g, grid@, nn, mm, covered_mask(fl0, mm, r * mm + c)),
                rooms == rooms_before(fl0, mm, r * mm + c),
            decreases m - c,
        {
            let ghost k = r * mm + c;
            proof {
                lemma_cell(nn, mm, r as int, c as int);
            }
            if grid[r][c] == FLOOR {
                let ghost g1 = grid@;
                proof {
                    lemma_scan_floor(old_g, g1, nn, mm, k);
                    assert(char_floor(g1, nn, mm)[k]);
                    lemma_cover_leader(fl0, mm, covered_mask(fl0, mm, k), k);
                    lemma_rooms_before_bound(fl0, mm, k);
                }
                rooms += 1;
                if recursive {
                    flood_fill_recursive(grid, r, c, n, m);
                } else {
                    flood_fill_iterative(grid, r, c, n, m);
                }
                proof {
                    lemma_scan_flood(old_g, g1, grid@, nn, mm, r as int, c as int);
                    assert(shaped(grid@, nn, mm)) by {
                        assert forall|rr: int| 0 <= rr < nn implies mm <= #[trigger] grid@[rr]@.len() by {
                            assert(g1[rr]@.len() >= mm);
                        }
                    }
                }
            } else {
                proof {
                    lemma_scan_skip(old_g, grid@, nn, mm, r as int, c as int);
                }
            }
            c += 1;
        }
        proof {
            assert(r * mm + mm == (r + 1) * mm) by (nonlinear_arith);
        }
        r += 1;
    }
    proof {
        assert(covered_mask(fl0, mm, nn * mm) =~= fl0) by {
            assert forall|i: int| 0 <= i < fl0.len() implies covered_mask(fl0, mm, nn * mm)[i] == fl0[i] by {
                if fl0[i] {
                    lemma_connected_refl(fl0, mm, i);
                    assert(connected(fl0, mm, i, i));
                }
                if covered(fl0, mm, nn * mm, i) {
                    let x = choose|x: int| 0 <= x < nn * mm && #[trigger] connected(fl0, mm, x, i);
                    let w = choose|w: Seq<int>| #[trigger] is_walk(fl0, mm, w) && w[0] == x && w.last() == i;
                    assert(fl0[w[w.len() - 1]]);
                }
            }
        }
    }
    rooms
}

/// Counts the rooms of the `n` by `m` map, flooding each one with an
/// explicit stack; every floor square ends up a wall.
pub fn count_rooms_iterative(grid: &mut Vec<Vec<char>>, n: usize, m: usize) -> (rooms: u32)
    requires
        shaped(old(grid)@, n as int, m as int),
        n * m <= u32::MAX,
    ensures
        rooms == room_count(char_floor(old(grid)@, n as int, m as int), m as int),
        painted(
            old(grid)@,
            final(grid)@,
            n as int,
            m as int,
            char_floor(old(grid)@, n as int, m as int),
        ),
{
    scan(grid, n, m, false)
}

/// Counts the rooms of the `n` by `m` map, flooding each one by recursion;
/// every floor square ends up a wall.
pub fn count_rooms_recursive(grid: &mut Vec<Vec<char>>, n: usize, m: usize) -> (rooms: u32)
    requires
        shaped(old(grid)@, n as int, m as int),
        n * m <= u32::MAX,
    ensures
        rooms == room_count(char_floor(old(grid)@, n as int, m as int), m as int),
        painted(
            old(grid)@,
            final(grid)@,
            n as int,
            m as int,
            char_floor(old(grid)@, n as int, m as int),
        ),
{
    scan(grid, n, m, true)
}

} // verus!
