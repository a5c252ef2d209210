//! "Labyrinth": a single start `A`, a single end `B`, moves up, down, left
//! and right of cost 1 on an n x m grid. Breadth-first search and A* with the
//! Manhattan heuristic both return a shortest path from `A` to `B`.

pub mod bfs;
pub mod astar;
pub mod text;

use vstd::prelude::*;
use vstd::string::StringSliceAdditionalSpecFns;
use vstd::set_lib::{lemma_int_range, lemma_len_subset, set_int_range};
use crate::labyrinth::text::{
    well_formed, header_n, header_m, line, line_start, content_end, last_index_of, find_line_end,
    find_skip_ws, find_token_end, parse_usize, lemma_line_facts, has_line,
};

verus! {

/// The byte of a wall square.
pub const WALL: u8 = 35;
/// The byte of the start square, `A`.
pub const START: u8 = 65;
/// The byte of the end square, `B`.
pub const END: u8 = 66;
/// The move up, `U`.
pub const UP: u8 = 85;
/// The move down, `D`.
pub const DOWN: u8 = 68;
/// The move left, `L`.
pub const LEFT: u8 = 76;
/// The move right, `R`.
pub const RIGHT: u8 = 82;

/// The cell reached from `cell` by the move `mv` in a row-major grid of
/// `size` cells and width `m`, or -1 when the move leaves the grid or is not
/// a move.
pub open spec fn step(m: int, size: int, cell: int, mv: u8) -> int {
    if mv == UP {
        if cell >= m { cell - m } else { -1 }
    } else if mv == DOWN {
        if cell + m < size { cell + m } else { -1 }
    } else if mv == LEFT {
        if cell % m > 0 { cell - 1 } else { -1 }
    } else if mv == RIGHT {
        if cell % m + 1 < m { cell + 1 } else { -1 }
    } else {
        -1
    }
}

/// The cell reached from `src` by following the moves of `p`, every cell
/// entered being inside the grid and not a wall; -1 when the walk is illegal.
pub open spec fn walk(cells: Seq<u8>, m: int, src: int, p: Seq<u8>) -> int
    decreases p.len(),
{
    if p.len() == 0 {
        src
    } else {
        let u = walk(cells, m, src, p.drop_last());
        if u < 0 {
            -1
        } else {
            let v = step(m, cells.len() as int, u, p.last());
            if 0 <= v < cells.len() && cells[v] != WALL { v } else { -1 }
        }
    }
}

/// The Manhattan distance between cells `a` and `b` of a grid of width `m`.
pub open spec fn manhattan_spec(m: int, a: int, b: int) -> int {
    let dr = a / m - b / m;
    let dc = a % m - b % m;
    (if dr >= 0 { dr } else { -dr }) + (if dc >= 0 { dc } else { -dc })
}

/// The last step of a legal walk.
pub proof fn lemma_walk_last(cells: Seq<u8>, m: int, start: int, p: Seq<u8>)
    requires
        p.len() > 0,
        walk(cells, m, start, p) >= 0,
    ensures
        walk(cells, m, start, p.drop_last()) >= 0,
        step(m, cells.len() as int, walk(cells, m, start, p.drop_last()), p.last()) == walk(cells, m, start, p),
        0 <= walk(cells, m, start, p) < cells.len(),
        cells[walk(cells, m, start, p)] != WALL,
{
    reveal(walk);
}

/// Walking `q` is walking its first `j` moves, then the rest from where they
/// lead.
pub proof fn lemma_walk_split(cells: Seq<u8>, m: int, src: int, q: Seq<u8>, j: int)
    requires
        walk(cells, m, src, q) >= 0,
        0 <= j <= q.len(),
    ensures
        walk(cells, m, src, q.take(j)) >= 0,
        walk(cells, m, walk(cells, m, src, q.take(j)), q.skip(j)) == walk(cells, m, src, q),
    decreases q.len(),
{
    if j == q.len() {
        assert(q.take(j) =~= q);
        assert(q.skip(j).len() == 0);
    } else {
        let q2 = q.drop_last();
        lemma_walk_last(cells, m, src, q);
        lemma_walk_split(cells, m, src, q2, j);
        assert(q2.take(j) =~= q.take(j));
        assert(q.skip(j).drop_last() =~= q2.skip(j));
        assert(q.skip(j).last() == q.last());
    }
}

/// The Manhattan distance is symmetric: from `a` to `b` as from `b` to `a`.
pub proof fn lemma_manhattan_symmetric(m: int, a: int, b: int)
    ensures
        manhattan_spec(m, a, b) == manhattan_spec(m, b, a),
{
}

/// Two cells of the grid are at distance 0 exactly when they are the same
/// cell.
pub proof fn lemma_manhattan_zero(m: int, a: int, b: int)
    requires
        m > 0,
        a >= 0,
        b >= 0,
    ensures
        manhattan_spec(m, a, b) >= 0,
        manhattan_spec(m, a, b) == 0 <==> a == b,
{
    if manhattan_spec(m, a, b) == 0 {
        vstd::arithmetic::div_mod::lemma_fundamental_div_mod(a, m);
        vstd::arithmetic::div_mod::lemma_fundamental_div_mod(b, m);
        assert(a / m == b / m && a % m == b % m);
    }
}

/// Within one row the distance is the number of columns between the cells,
/// whichever of them is further right.
pub proof fn lemma_manhattan_same_row(m: int, a: int, b: int)
    requires
        m > 0,
        a >= 0,
        b >= 0,
        a / m == b / m,
    ensures
        manhattan_spec(m, a, b) == if a >= b { a - b } else { b - a },
{
    vstd::arithmetic::div_mod::lemma_fundamental_div_mod(a, m);
    vstd::arithmetic::div_mod::lemma_fundamental_div_mod(b, m);
    assert(a - b == a % m - b % m);
}

/// Within one column the distance is the number of rows between the cells:
/// `m` times it is the difference of the indices.
pub proof fn lemma_manhattan_same_column(m: int, a: int, b: int)
    requires
        m > 0,
        a >= 0,
        b >= 0,
        a % m == b % m,
    ensures
        manhattan_spec(m, a, b) * m == if a >= b { a - b } else { b - a },
{
    vstd::arithmetic::div_mod::lemma_fundamental_div_mod(a, m);
    vstd::arithmetic::div_mod::lemma_fundamental_div_mod(b, m);
    let d = a / m - b / m;
    assert(a - b == m * d) by (nonlinear_arith)
        requires a == m * (a / m) + a % m, b == m * (b / m) + b % m, a % m == b % m, d == a / m - b / m;
    assert((if d >= 0 { d } else { -d }) * m == if a >= b { a - b } else { b - a }) by (nonlinear_arith)
        requires a - b == m * d, m > 0;
}

/// Going from `a` to `b` is going along the row of `a` to the column of `b`,
/// then along that column: the distance is the sum of the two legs.
pub proof fn lemma_manhattan_corner(m: int, a: int, b: int)
    requires
        m > 0,
        a >= 0,
        b >= 0,
    ensures
        ({
            let c = (a / m) * m + b % m;
            &&& c / m == a / m
            &&& c % m == b % m
            &&& manhattan_spec(m, a, b) == manhattan_spec(m, a, c) + manhattan_spec(m, c, b)
        }),
{
    let c = (a / m) * m + b % m;
    vstd::arithmetic::div_mod::lemma_fundamental_div_mod_converse(c, m, a / m, b % m);
}

/// One move changes the Manhattan distance to any cell by at most one.
pub proof fn lemma_manhattan_step(m: int, size: int, u: int, c: u8, e: int)
    requires
        m > 0,
        0 <= u < size,
        0 <= e < size,
        0 <= step(m, size, u, c),
    ensures
        manhattan_spec(m, u, e) <= manhattan_spec(m, step(m, size, u, c), e) + 1,
        manhattan_spec(m, step(m, size, u, c), e) <= manhattan_spec(m, u, e) + 1,
{
    let v = step(m, size, u, c);
    let q = u / m;
    let r = u % m;
    vstd::arithmetic::div_mod::lemma_fundamental_div_mod(u, m);
    assert(u == q * m + r) by {
        vstd::arithmetic::mul::lemma_mul_is_commutative(m, q);
    }
    if v == u - m {
        assert(v == (q - 1) * m + r) by (nonlinear_arith)
            requires v == u - m, u == q * m + r;
        vstd::arithmetic::div_mod::lemma_fundamental_div_mod_converse(v, m, q - 1, r);
    } else if v == u + m {
        assert(v == (q + 1) * m + r) by (nonlinear_arith)
            requires v == u + m, u == q * m + r;
        vstd::arithmetic::div_mod::lemma_fundamental_div_mod_converse(v, m, q + 1, r);
    } else if v == u - 1 {
        vstd::arithmetic::div_mod::lemma_fundamental_div_mod_converse(v, m, q, r - 1);
    } else {
        vstd::arithmetic::div_mod::lemma_fundamental_div_mod_converse(v, m, q, r + 1);
    }
}

/// The Manhattan heuristic is consistent: from `u`, a legal walk of `k`
/// moves to `w` gives `h(u) <= k + h(w)`.
pub proof fn lemma_manhattan_walk(cells: Seq<u8>, m: int, u: int, r: Seq<u8>, e: int)
    requires
        m > 0,
        0 <= u < cells.len(),
        0 <= e < cells.len(),
        walk(cells, m, u, r) >= 0,
    ensures
        manhattan_spec(m, u, e) <= r.len() + manhattan_spec(m, walk(cells, m, u, r), e),
    decreases r.len(),
{
    if r.len() > 0 {
        lemma_walk_last(cells, m, u, r);
        let x = walk(cells, m, u, r.drop_last());
        lemma_manhattan_walk(cells, m, u, r.drop_last(), e);
        if x >= 0 {
            lemma_walk_bounds(cells, m, u, r.drop_last());
        }
        lemma_manhattan_step(m, cells.len() as int, x, r.last(), e);
    }
}

/// A legal walk stays inside the grid.
pub proof fn lemma_walk_bounds(cells: Seq<u8>, m: int, src: int, p: Seq<u8>)
    requires
        0 <= src < cells.len(),
        walk(cells, m, src, p) >= 0,
    ensures
        walk(cells, m, src, p) < cells.len(),
    decreases p.len(),
{
}

/// Appending a byte moves the last position of `ch` to it when it is `ch`.
proof fn lemma_last_index_push(s: Seq<u8>, ch: u8, x: u8)
    ensures
        last_index_of(s.push(x), ch, s.len() + 1int) == if x == ch { s.len() as int } else { last_index_of(s, ch, s.len() as int) },
{
    lemma_last_index_prefix(s, x, ch, s.len() as int);
}

proof fn lemma_last_index_prefix(s: Seq<u8>, x: u8, ch: u8, k: int)
    requires
        k <= s.len(),
    ensures
        last_index_of(s.push(x), ch, k) == last_index_of(s, ch, k),
    decreases k,
{
    if k > 0 {
        lemma_last_index_prefix(s, x, ch, k - 1);
    }
}

/// Parsed labyrinth. Cells are stored row-major; index = row * m + col.
pub struct Maze {
    /// Rows.
    pub n: usize,
    /// Columns.
    pub m: usize,
    /// Raw bytes: `.`, `#`, `A`, `B`.
    pub cells: Vec<u8>,
    /// Index of `A`.
    pub start: usize,
    /// Index of `B`.
    pub end: usize,
}

/// Result of a search: the path (None if `B` is unreachable) and the number
/// of cells expanded (taken off the frontier and processed).
pub struct SearchResult {
    /// The moves of the path found.
    pub path: Option<Vec<u8>>,
    /// Cells expanded.
    pub expanded: u64,
}

impl Maze {
    /// One byte per cell, with start and end inside the grid.
    pub open spec fn wf(&self) -> bool {
        &&& self.cells.len() == self.n * self.m
        &&& self.start < self.cells.len()
        &&& self.end < self.cells.len()
    }

    /// The cell reached from the start by the moves `p`, or -1.
    pub open spec fn walk_from_start(&self, p: Seq<u8>) -> int {
        walk(self.cells@, self.m as int, self.start as int, p)
    }

    /// `p` is a legal path from the start to the end.
    pub open spec fn is_route(&self, p: Seq<u8>) -> bool {
        self.walk_from_start(p) == self.end as int
    }

    /// The cells that some legal path from the start reaches.
    pub open spec fn reachable_cells(&self) -> Set<int> {
        Set::new(|v: int| 0 <= v && exists|p: Seq<u8>| #[trigger] self.walk_from_start(p) == v)
    }

    /// There are finitely many reachable cells, at most one per cell.
    pub proof fn lemma_reachable_cells_bound(&self)
        requires
            self.wf(),
        ensures
            self.reachable_cells().finite(),
            self.reachable_cells().len() <= self.cells.len(),
            self.reachable_cells().contains(self.start as int),
    {
        let size = self.cells.len() as int;
        assert forall|v: int| #[trigger] self.reachable_cells().contains(v) implies set_int_range(0, size).contains(v) by {
            let p = choose|p: Seq<u8>| #[trigger] self.walk_from_start(p) == v;
            lemma_walk_bounds(self.cells@, self.m as int, self.start as int, p);
        }
        lemma_int_range(0, size);
        lemma_len_subset(self.reachable_cells(), set_int_range(0, size));
        assert(self.walk_from_start(Seq::empty()) == self.start as int);
    }

    /// The cells that some legal path of at most `c` moves reaches.
    pub open spec fn cells_within(&self, c: int) -> Set<int> {
        Set::new(|v: int| 0 <= v && exists|p: Seq<u8>| #[trigger] self.walk_from_start(p) == v && p.len() <= c)
    }

    /// The cells that some legal path reaches with `c` moves or fewer still to
    /// spare for the Manhattan distance on to the end.
    pub open spec fn promising_cells(&self, c: int) -> Set<int> {
        Set::new(
            |v: int|
                0 <= v && exists|p: Seq<u8>|
                    #[trigger] self.walk_from_start(p) == v && p.len() + manhattan_spec(self.m as int, v, self.end as int) <= c,
        )
    }

    /// The Manhattan distance is never negative, so every promising cell is
    /// within reach of `c` moves: the cells that A* may expand are among
    /// those that breadth-first search may expand.
    pub proof fn lemma_promising_within(&self, c: int)
        ensures
            self.promising_cells(c).subset_of(self.cells_within(c)),
    {
        assert forall|v: int| #[trigger] self.promising_cells(c).contains(v) implies self.cells_within(c).contains(v) by {
            let p = choose|p: Seq<u8>|
                #[trigger] self.walk_from_start(p) == v && p.len() + manhattan_spec(self.m as int, v, self.end as int) <= c;
            assert(self.walk_from_start(p) == v && p.len() <= c);
        }
    }

    /// Both sets are finite and hold at most all cells.
    pub proof fn lemma_bounded_sets(&self, c: int)
        requires
            self.wf(),
        ensures
            self.cells_within(c).finite(),
            self.cells_within(c).len() <= self.cells.len(),
            self.promising_cells(c).finite(),
            self.promising_cells(c).len() <= self.cells.len(),
    {
        let size = self.cells.len() as int;
        assert forall|v: int| #[trigger] self.cells_within(c).contains(v) implies set_int_range(0, size).contains(v) by {
            let p = choose|p: Seq<u8>| #[trigger] self.walk_from_start(p) == v && p.len() <= c;
            lemma_walk_bounds(self.cells@, self.m as int, self.start as int, p);
        }
        lemma_int_range(0, size);
        lemma_len_subset(self.cells_within(c), set_int_range(0, size));
        self.lemma_promising_within(c);
        lemma_len_subset(self.promising_cells(c), self.cells_within(c));
    }

    /// Some legal path leads from the start to the end.
    pub open spec fn reachable(&self) -> bool {
        exists|p: Seq<u8>| #[trigger] self.is_route(p)
    }

    /// `p` is a legal path from the start to the end and no legal path is
    /// shorter.
    pub open spec fn is_shortest_route(&self, p: Seq<u8>) -> bool {
        &&& self.is_route(p)
        &&& forall|q: Seq<u8>| #[trigger] self.is_route(q) ==> p.len() <= q.len()
    }

    /// Parses the text format: a first line `n m`, then `n` lines of `m`
    /// cells. The start and end are the last `A` and the last `B` in row-major
    /// order (0 when there is none).
    pub fn parse(input: &str) -> (maze: Maze)
        requires
            well_formed(input.spec_bytes()),
        ensures ({
            let b = input.spec_bytes();
            &&& maze.n == header_n(b)
            &&& maze.m == header_m(b)
            &&& maze.cells@.len() == maze.n * maze.m
            &&& forall|r: int, c: int| 0 <= r < maze.n && 0 <= c < maze.m ==>
                #[trigger] maze.cells@[r * maze.m + c] == line(b, (r + 1) as nat)[c]
            &&& maze.start == last_index_of(maze.cells@, START, maze.cells@.len() as int)
            &&& maze.end == last_index_of(maze.cells@, END, maze.cells@.len() as int)
        }),
    {
        let b: &[u8] = input.as_bytes();
        let ghost bs = b@;
        let e0 = find_line_end(b, 0);
        proof {
            lemma_line_facts(bs, 0);
        }
        let ce0 = if e0 < b.len() && e0 > 0 && b[e0 - 1] == 13 { e0 - 1 } else { e0 };
        proof {
            assert(ce0 == content_end(bs, 0));
        }
        let t1s = find_skip_ws(b, 0, ce0);
        let t1e = find_token_end(b, t1s, ce0);
        let n = parse_usize(b, t1s, t1e);
        let t2s = find_skip_ws(b, t1e, ce0);
        let t2e = find_token_end(b, t2s, ce0);
        let m = parse_usize(b, t2s, t2e);
        let mut cells: Vec<u8> = Vec::new();
        let mut start: usize = 0;
        let mut end: usize = 0;
        let mut s: usize = if e0 < b.len() { e0 + 1 } else { b.len() };
        proof {
            if n > 0 {
                assert(line(bs, 1).len() >= m);
                assert(has_line(bs, 1));
                assert(line_start(bs, 1) == e0 + 1);
            }
        }
        let mut r: usize = 0;
        while r < n
            invariant
                bs == b@,
                bs == input.spec_bytes(),
                well_formed(bs),
                n == header_n(bs),
                m == header_m(bs),
                n * m <= usize::MAX,
                r <= n,
                r < n ==> s == line_start(bs, (r + 1) as nat),
                cells@.len() == r * m,
                forall|rr: int, c: int| 0 <= rr < r && 0 <= c < m ==>
                    #[trigger] cells@[rr * m + c] == line(bs, (rr + 1) as nat)[c],
                start == last_index_of(cells@, START, cells@.len() as int),
                end == last_index_of(cells@, END, cells@.len() as int),
            decreases n - r,
        {
            proof {
                assert(line(bs, (r + 1) as nat).len() >= m);
                lemma_line_facts(bs, (r + 1) as nat);
                lemma_line_facts(bs, (r + 2) as nat);
                assert(line_start(bs, (r + 1) as nat) < bs.len());
                assert(r * m + m <= n * m) by (nonlinear_arith)
                    requires r < n, m >= 0;
            }
            let e = find_line_end(b, s);
            let mut c: usize = 0;
            while c < m
                invariant
                    bs == b@,
                    r < n,
                    n * m <= usize::MAX,
                    r * m + m <= n * m,
                    s == line_start(bs, (r + 1) as nat),
                    line(bs, (r + 1) as nat).len() >= m,
                    has_line(bs, (r + 1) as nat),
                    s <= content_end(bs, (r + 1) as nat) <= bs.len(),
                    bs.len() == b.len(),
                    line(bs, (r + 1) as nat).len() == content_end(bs, (r + 1) as nat) - s,
                    c <= m,
                    cells@.len() == r * m + c,
                    forall|rr: int, cc: int| 0 <= rr < r && 0 <= cc < m ==>
                        #[trigger] cells@[rr * m + cc] == line(bs, (rr + 1) as nat)[cc],
                    forall|cc: int| 0 <= cc < c ==> #[trigger] cells@[r * m + cc] == line(bs, (r + 1) as nat)[cc],
                    start == last_index_of(cells@, START, cells@.len() as int),
                    end == last_index_of(cells@, END, cells@.len() as int),
                decreases m - c,
            {
                proof {
                    assert(s + c < content_end(bs, (r + 1) as nat));
                }
                let ch = b[s + c];
                let idx = r * m + c;
                let ghost before = cells@;
                cells.push(ch);
                proof {
                    assert(ch == line(bs, (r + 1) as nat)[c as int]);
                    lemma_last_index_push(before, START, ch);
                    lemma_last_index_push(before, END, ch);
                    assert forall|rr: int, cc: int| 0 <= rr < r && 0 <= cc < m implies
                        #[trigger] cells@[rr * m + cc] == line(bs, (rr + 1) as nat)[cc] by {
                        assert(rr * m + cc < r * m) by (nonlinear_arith)
                            requires rr < r, cc < m, 0 <= rr;
                    }
                }
                if ch == START {
                    start = idx;
                } else if ch == END {
                    end = idx;
                }
                c += 1;
            }
            proof {
                assert((r + 1) * m == r * m + m) by (nonlinear_arith);
            }
            s = if e < b.len() { e + 1 } else { b.len() };
            proof {
                if r + 1 < n {
                    assert(line(bs, (r + 2) as nat).len() >= m);
                    assert(has_line(bs, (r + 2) as nat));
                    assert(line_start(bs, (r + 2) as nat) == e + 1);
                }
            }
            r += 1;
        }
        Maze { n, m, cells, start, end }
    }

    /// Manhattan distance from cell `idx` to the end (the A* heuristic),
    /// truncated to 32 bits.
    pub fn manhattan(&self, idx: usize) -> (h: u32)
        requires
            self.m > 0,
        ensures
            h == manhattan_spec(self.m as int, idx as int, self.end as int) as u32,
    {
        let m = self.m;
        let r = idx / m;
        let c = idx % m;
        let er = self.end / m;
        let ec = self.end % m;
        let dr = if r > er { r - er } else { er - r };
        let dc = if c > ec { c - ec } else { ec - c };
        proof {
            let top = usize::MAX as int;
            let q = top / (m as int);
            vstd::arithmetic::div_mod::lemma_div_is_ordered(idx as int, top, m as int);
            vstd::arithmetic::div_mod::lemma_div_is_ordered(self.end as int, top, m as int);
            vstd::arithmetic::div_mod::lemma_div_is_ordered(m as int, top, m as int);
            assert((m as int) / (m as int) == 1) by (nonlinear_arith)
                requires m > 0;
            assert(q * m <= top) by (nonlinear_arith)
                requires q == top / (m as int), m > 0, top > 0;
            assert(dr + dc <= q * m) by (nonlinear_arith)
                requires dr <= q, dc < m, q >= 1, m >= 1;
        }
        (dr + dc) as u32
    }

    /// A cell can be entered iff it is not a wall.
    pub fn passable(&self, idx: usize) -> (b: bool)
        requires
            idx < self.cells.len(),
        ensures
            b == (self.cells@[idx as int] != WALL),
    {
        self.cells[idx] != WALL
    }
}

impl SearchResult {
    /// The length of the path found, if any.
    pub fn length(&self) -> (l: Option<usize>)
        ensures
            l == match self.path {
                Some(p) => Some(p.len()),
                None => None::<usize>,
            },
    {
        match &self.path {
            Some(p) => Some(p.len()),
            None => None,
        }
    }
}

/// All shortest routes have the same length, so searches that each return a
/// shortest route (breadth-first search and A*) agree on its length.
pub proof fn lemma_shortest_routes_agree(maze: Maze, p: Seq<u8>, q: Seq<u8>)
    requires
        maze.is_shortest_route(p),
        maze.is_shortest_route(q),
    ensures
        p.len() == q.len(),
{
}

/// Following parent pointers `k` times from `v` first reaches `start` at the
/// `k`-th step.
pub open spec fn parent_chain(parent: Seq<u32>, start: int, v: int, k: nat) -> bool
    decreases k,
{
    if k == 0 {
        v == start
    } else {
        &&& v != start
        &&& 0 <= v < parent.len()
        &&& parent_chain(parent, start, parent[v] as int, (k - 1) as nat)
    }
}

/// The moves recorded along the `k`-step parent chain from `v`, in forward
/// order.
pub open spec fn chain_moves(parent: Seq<u32>, came: Seq<u8>, v: int, k: nat) -> Seq<u8>
    decreases k,
{
    if k == 0 {
        Seq::empty()
    } else {
        chain_moves(parent, came, parent[v] as int, (k - 1) as nat).push(came[v])
    }
}

/// The number of steps to `start` along a parent chain is unique.
pub proof fn lemma_parent_chain_unique(parent: Seq<u32>, start: int, v: int, k1: nat, k2: nat)
    requires
        parent_chain(parent, start, v, k1),
        parent_chain(parent, start, v, k2),
    ensures
        k1 == k2,
    decreases k1,
{
    if k1 > 0 && k2 > 0 {
        lemma_parent_chain_unique(parent, start, parent[v] as int, (k1 - 1) as nat, (k2 - 1) as nat);
    }
}

/// Walks parent pointers from `end` back to `start`, collecting the move that
/// entered each cell, then reverses them into forward order.
pub fn reconstruct(start: usize, end: usize, parent: &[u32], came: &[u8]) -> (path: Vec<u8>)
    requires
        came.len() == parent.len(),
        exists|k: nat| parent_chain(parent@, start as int, end as int, k),
    ensures
        forall|k: nat| parent_chain(parent@, start as int, end as int, k)
            ==> path@ == chain_moves(parent@, came@, end as int, k),
{
    let ghost k0 = choose|k: nat| parent_chain(parent@, start as int, end as int, k);
    let mut back: Vec<u8> = Vec::new();
    let mut cur = end;
    let ghost mut k: nat = k0;
    while cur != start
        invariant
            came.len() == parent.len(),
            parent_chain(parent@, start as int, cur as int, k),
            back@.len() + k == k0,
            chain_moves(parent@, came@, end as int, k0)
                == chain_moves(parent@, came@, cur as int, k) + back@.reverse(),
        decreases k,
    {
        proof {
            assert(k > 0);
            let rest = chain_moves(parent@, came@, parent@[cur as int] as int, (k - 1) as nat);
            assert(back@.push(came@[cur as int]).reverse() =~= seq![came@[cur as int]] + back@.reverse());
            assert(rest.push(came@[cur as int]) + back@.reverse() =~= rest + back@.push(came@[cur as int]).reverse());
        }
        back.push(came[cur]);
        cur = parent[cur] as usize;
        proof {
            k = (k - 1) as nat;
        }
    }
    let mut path: Vec<u8> = Vec::new();
    let mut j: usize = back.len();
    while j > 0
        invariant
            j <= back@.len(),
            path@ == back@.subrange(j as int, back@.len() as int).reverse(),
        decreases j,
    {
        j -= 1;
        proof {
            assert(back@.subrange(j as int, back@.len() as int).reverse()
                =~= back@.subrange(j + 1, back@.len() as int).reverse().push(back@[j as int]));
        }
        path.push(back[j]);
    }
    proof {
        assert(k == 0);
        assert(back@.subrange(0, back@.len() as int) =~= back@);
        assert(chain_moves(parent@, came@, end as int, k0) =~= path@);
        assert forall|k: nat| parent_chain(parent@, start as int, end as int, k)
            implies path@ == chain_moves(parent@, came@, end as int, k) by {
            lemma_parent_chain_unique(parent@, start as int, end as int, k, k0);
        }
    }
    path
}

} // verus!
