//! Union-find: every floor cell starts as a room of its own, and each union of
//! two adjacent floor cells in different sets merges two rooms into one.

use vstd::prelude::*;
use vstd::set_lib::{lemma_int_range, lemma_len_subset, set_int_range, lemma_set_disjoint_lens};
use vstd::set_lib::lemma_map_size;
use vstd::relations::injective_on;
use crate::counting_rooms::{
    Grid, room_count, adjacent, connected, is_walk, is_leader, leaders_before, lemma_rooms_before_set,
    lemma_first_cell, lemma_adjacent_connected, lemma_connected_trans, lemma_connected_symm,
    lemma_neighbours,
};

verus! {

/// Disjoint-set forest with path halving and union by size. Beside the
/// forest it keeps, as ghost state, the root (`leader`) of every element, a
/// rank that strictly grows towards the root, and the number of unions made,
/// which bounds every rank.
struct Dsu {
    parent: Vec<u32>,
    size: Vec<u32>,
    leader: Ghost<Seq<int>>,
    rank: Ghost<Seq<int>>,
    unions: Ghost<int>,
}

/// The elements below `n` whose root is `r`.
spec fn class_of(leader: Seq<int>, n: int, r: int) -> Set<int> {
    Set::new(|y: int| 0 <= y < n && leader[y] == r)
}

proof fn lemma_class_finite(leader: Seq<int>, n: int, r: int)
    requires
        n >= 0,
    ensures
        class_of(leader, n, r).finite(),
        class_of(leader, n, r).len() <= n,
{
    lemma_int_range(0, n);
    lemma_len_subset(class_of(leader, n, r), set_int_range(0, n));
}

proof fn lemma_roots_finite(d: Dsu)
    ensures
        d.roots().finite(),
{
    lemma_int_range(0, d.len());
    lemma_len_subset(d.roots(), set_int_range(0, d.len()));
}

impl Dsu {
    spec fn len(&self) -> int {
        self.parent@.len() as int
    }

    spec fn is_root(&self, x: int) -> bool {
        self.parent@[x] as int == x
    }

    /// The roots of the forest, one for each set.
    spec fn roots(&self) -> Set<int> {
        Set::new(|y: int| 0 <= y < self.len() && self.is_root(y))
    }

    spec fn wf(&self) -> bool {
        let n = self.len();
        &&& self.size@.len() == n
        &&& self.leader@.len() == n
        &&& self.rank@.len() == n
        &&& n <= u32::MAX
        &&& forall|x: int| 0 <= x < n ==> (#[trigger] self.parent@[x]) < n
        &&& forall|x: int| 0 <= x < n ==> 0 <= #[trigger] self.leader@[x] < n
        &&& forall|x: int| 0 <= x < n ==> self.is_root(#[trigger] self.leader@[x])
        &&& forall|x: int| 0 <= x < n && #[trigger] self.is_root(x) ==> self.leader@[x] == x
        &&& forall|x: int| 0 <= x < n ==> self.leader@[#[trigger] self.parent@[x] as int] == self.leader@[x]
        &&& forall|x: int| 0 <= x < n ==> 0 <= #[trigger] self.rank@[x] <= self.unions@
        &&& forall|x: int| 0 <= x < n && !#[trigger] self.is_root(x) ==> self.rank@[x] < self.rank@[self.parent@[x] as int]
        &&& forall|r: int| 0 <= r < n && #[trigger] self.is_root(r) ==> self.size@[r] == class_of(self.leader@, n, r).len()
    }

    /// `len` singleton sets.
    fn new(len: usize) -> (d: Dsu)
        requires
            len <= u32::MAX,
        ensures
            d.wf(),
            d.len() == len,
            forall|x: int| 0 <= x < len ==> d.leader@[x] == x,
    {
        let mut parent: Vec<u32> = Vec::new();
        let mut i: usize = 0;
        while i < len
            invariant
                len <= u32::MAX,
                i <= len,
                parent@.len() == i,
                forall|x: int| 0 <= x < i ==> parent@[x] == x,
            decreases len - i,
        {
            parent.push(i as u32);
            i += 1;
        }
        let size: Vec<u32> = vec![1u32; len];
        let ghost leader = Seq::new(len as nat, |y: int| y);
        let d = Dsu {
            parent,
            size,
            leader: Ghost(leader),
            rank: Ghost(Seq::new(len as nat, |y: int| 0int)),
            unions: Ghost(0int),
        };
        assert forall|r: int| 0 <= r < len && #[trigger] d.is_root(r) implies d.size@[r] == class_of(d.leader@, len as int, r).len() by {
            assert(class_of(d.leader@, len as int, r) =~= set![r]);
        }
        d
    }

    /// The root of `x`'s set; halves the path on the way up.
    fn find(&mut self, x: u32) -> (r: u32)
        requires
            old(self).wf(),
            x < old(self).len(),
        ensures
            final(self).wf(),
            r == old(self).leader@[x as int],
            final(self).len() == old(self).len(),
            final(self).leader@ == old(self).leader@,
            final(self).size@ == old(self).size@,
            final(self).rank@ == old(self).rank@,
            final(self).unions@ == old(self).unions@,
            forall|y: int| 0 <= y < old(self).len() ==> (final(self).is_root(y) <==> old(self).is_root(y)),
    {
        let ghost l0 = self.leader@[x as int];
        let mut x = x;
        while self.parent[x as usize] != x
            invariant
                self.wf(),
                self.len() == old(self).len(),
                x < self.len(),
                self.leader@ == old(self).leader@,
                self.rank@ == old(self).rank@,
                self.size@ == old(self).size@,
                self.unions@ == old(self).unions@,
                self.leader@[x as int] == l0,
                forall|y: int| 0 <= y < old(self).len() ==> (self.is_root(y) <==> old(self).is_root(y)),
            decreases self.unions@ - self.rank@[x as int],
        {
            let p = self.parent[x as usize];
            let gp = self.parent[p as usize];
            proof {
                assert(!self.is_root(x as int));
                assert(self.leader@[p as int] == self.leader@[x as int]);
                assert(self.leader@[gp as int] == self.leader@[p as int]);
                assert(self.rank@[x as int] < self.rank@[p as int]);
                if !self.is_root(p as int) {
                    assert(self.rank@[p as int] < self.rank@[gp as int]);
                }
            }
            let ghost old_self = *self;
            self.parent.set(x as usize, gp);
            proof {
                assert forall|y: int| 0 <= y < self.len() && #[trigger] self.is_root(y) implies self.size@[y] == class_of(self.leader@, self.len(), y).len() by {
                    assert(old_self.is_root(y));
                }
                assert forall|y: int| 0 <= y < self.len() && !#[trigger] self.is_root(y) implies self.rank@[y] < self.rank@[self.parent@[y] as int] by {
                    assert(!old_self.is_root(y));
                }
                assert forall|y: int| 0 <= y < self.len() implies self.is_root(#[trigger] self.leader@[y]) by {
                    assert(old_self.is_root(old_self.leader@[y]));
                }
                assert forall|y: int| 0 <= y < self.len() && #[trigger] self.is_root(y) implies self.leader@[y] == y by {
                    assert(old_self.is_root(y));
                }
            }
            x = gp;
        }
        proof {
            assert(self.is_root(x as int));
        }
        x
    }

    /// Merges the sets of `a` and `b`, hanging the smaller tree under the
    /// larger. Returns true iff they were in different sets.
    fn union(&mut self, a: u32, b: u32) -> (merged: bool)
        requires
            old(self).wf(),
            a < old(self).len(),
            b < old(self).len(),
        ensures
            final(self).wf(),
            final(self).len() == old(self).len(),
            merged == (old(self).leader@[a as int] != old(self).leader@[b as int]),
            final(self).leader@[a as int] == final(self).leader@[b as int],
            forall|x: int, y: int| 0 <= x < old(self).len() && 0 <= y < old(self).len() ==>
                (#[trigger] final(self).leader@[x] == #[trigger] final(self).leader@[y] <==> {
                    let ra = old(self).leader@[a as int];
                    let rb = old(self).leader@[b as int];
                    ||| old(self).leader@[x] == old(self).leader@[y]
                    ||| (old(self).leader@[x] == ra || old(self).leader@[x] == rb) && (old(self).leader@[y] == ra || old(self).leader@[y] == rb)
                }),
            old(self).roots().finite(),
            final(self).roots().finite(),
            final(self).roots().len() == old(self).roots().len() - (if merged { 1int } else { 0int }),
            !merged ==> final(self).leader@ == old(self).leader@,
            !merged ==> forall|y: int| 0 <= y < old(self).len() ==> (final(self).is_root(y) <==> old(self).is_root(y)),
            merged ==> {
                let ra = old(self).leader@[a as int];
                let rb = old(self).leader@[b as int];
                let w = final(self).leader@[a as int];
                &&& (w == ra || w == rb)
                &&& forall|y: int| 0 <= y < old(self).len() ==> #[trigger] final(self).leader@[y] == if old(self).leader@[y] == ra || old(self).leader@[y] == rb { w } else { old(self).leader@[y] }
                &&& forall|y: int| 0 <= y < old(self).len() ==> (#[trigger] final(self).is_root(y) <==> (old(self).is_root(y) && (y == w || (y != ra && y != rb))))
            },
    {
        let ghost d_init = *self;
        let ghost l0 = self.leader@;
        let ghost ra0 = l0[a as int];
        let ghost rb0 = l0[b as int];
        let mut ra = self.find(a);
        let mut rb = self.find(b);
        proof {
            lemma_roots_finite(d_init);
            assert(self.roots() =~= d_init.roots());
        }
        if ra == rb {
            proof {
                lemma_roots_finite(*self);
            }
            return false;
        }
        if self.size[ra as usize] < self.size[rb as usize] {
            let t = ra;
            ra = rb;
            rb = t;
        }
        let ghost old_self = *self;
        let ghost n = self.len();
        proof {
            let ca = class_of(l0, n, ra as int);
            let cb = class_of(l0, n, rb as int);
            lemma_class_finite(l0, n, ra as int);
            lemma_class_finite(l0, n, rb as int);
            lemma_int_range(0, n);
            assert(ca.disjoint(cb));
            lemma_set_disjoint_lens(ca, cb);
            lemma_len_subset(ca + cb, set_int_range(0, n));
            assert(self.is_root(ra as int));
            assert(self.is_root(rb as int));
        }
        let new_size = self.size[ra as usize] + self.size[rb as usize];
        self.parent.set(rb as usize, ra);
        self.size.set(ra as usize, new_size);
        let ghost new_leader = l0.map_values(|y: int| if y == rb as int { ra as int } else { y });
        let ghost rk = self.rank@;
        let ghost new_rank_ra = if rk[ra as int] > rk[rb as int] { rk[ra as int] } else { rk[rb as int] + 1 };
        self.leader = Ghost(new_leader);
        self.rank = Ghost(rk.update(ra as int, new_rank_ra));
        self.unions = Ghost(self.unions@ + 1);
        proof {
            let ra_i = ra as int;
            let rb_i = rb as int;
            assert forall|y: int| 0 <= y < n implies #[trigger] self.leader@[y] == if l0[y] == rb_i { ra_i } else { l0[y] } by {}
            assert forall|y: int| 0 <= y < n implies (#[trigger] self.is_root(y) <==> (old_self.is_root(y) && y != rb_i)) by {}
            assert forall|x: int| 0 <= x < n implies self.leader@[#[trigger] self.parent@[x] as int] == self.leader@[x] by {
                if x != rb_i {
                    assert(old_self.parent@[x] == self.parent@[x]);
                    assert(l0[old_self.parent@[x] as int] == l0[x]);
                }
            }
            assert forall|x: int| 0 <= x < n implies self.is_root(#[trigger] self.leader@[x]) by {
                assert(old_self.is_root(l0[x]));
            }
            assert forall|x: int| 0 <= x < n && #[trigger] self.is_root(x) implies self.leader@[x] == x by {
                assert(old_self.is_root(x));
            }
            assert forall|x: int| 0 <= x < n && !#[trigger] self.is_root(x) implies self.rank@[x] < self.rank@[self.parent@[x] as int] by {
                if x != rb_i {
                    assert(!old_self.is_root(x));
                }
            }
            assert forall|r: int| 0 <= r < n && #[trigger] self.is_root(r) implies self.size@[r] == class_of(self.leader@, n, r).len() by {
                assert(old_self.is_root(r));
                if r == ra_i {
                    assert(class_of(self.leader@, n, r) =~= class_of(l0, n, ra_i) + class_of(l0, n, rb_i));
                } else {
                    assert(class_of(self.leader@, n, r) =~= class_of(l0, n, r));
                }
            }
            assert(self.leader@[a as int] == ra_i);
            assert forall|y: int| 0 <= y < n implies #[trigger] self.leader@[y] == if l0[y] == ra0 || l0[y] == rb0 { ra_i } else { l0[y] } by {}
            assert(self.roots() =~= old_self.roots().remove(rb_i));
            assert(old_self.roots().contains(rb_i));
            lemma_roots_finite(*self);
        }
        true
    }
}


/// The floor cells that are roots of the forest.
spec fn floor_roots(d: Dsu, fl: Seq<bool>) -> Set<int> {
    Set::new(|y: int| 0 <= y < fl.len() && fl[y] && d.is_root(y))
}

/// The edge from `x` to its right or lower neighbour `y`, both floor; the
/// scan unions along these edges, which together cover every adjacency.
spec fn scan_edge(fl: Seq<bool>, m: int, x: int, y: int) -> bool {
    &&& 0 <= x < fl.len()
    &&& 0 <= y < fl.len()
    &&& fl[x]
    &&& fl[y]
    &&& ((y == x + 1 && x % m + 1 < m) || y == x + m)
}

/// Equal roots along every step of a walk give equal roots at its ends.
proof fn lemma_walk_same_leader(fl: Seq<bool>, m: int, leader: Seq<int>, w: Seq<int>, k: int)
    requires
        is_walk(fl, m, w),
        forall|x: int, y: int| #[trigger] adjacent(m, fl.len() as int, x, y) && fl[x] && fl[y] ==> leader[x] == leader[y],
        0 <= k < w.len(),
    ensures
        leader[w[k]] == leader[w[0]],
    decreases k,
{
    if k > 0 {
        lemma_walk_same_leader(fl, m, leader, w, k - 1);
        let j = k - 1;
        assert(adjacent(m, fl.len() as int, w[j], w[j + 1]));
    }
}

/// Once the forest's sets are exactly the rooms, its floor roots are as many
/// as the rooms.
proof fn lemma_root_count(fl: Seq<bool>, m: int, d: Dsu)
    requires
        d.wf(),
        d.len() == fl.len(),
        forall|x: int| 0 <= x < fl.len() ==> fl[#[trigger] d.leader@[x]] == fl[x],
        forall|x: int, y: int| 0 <= x < fl.len() && 0 <= y < fl.len() && fl[x] && fl[y]
            && #[trigger] d.leader@[x] == #[trigger] d.leader@[y] ==> connected(fl, m, x, y),
        forall|x: int, y: int| #[trigger] connected(fl, m, x, y) ==> d.leader@[x] == d.leader@[y],
    ensures
        floor_roots(d, fl).len() == room_count(fl, m),
{
    let n = fl.len() as int;
    let l = leaders_before(fl, m, n);
    let r = floor_roots(d, fl);
    let f = |i: int| d.leader@[i];
    lemma_rooms_before_set(fl, m, n);
    assert forall|x1: int, x2: int| l.contains(x1) && l.contains(x2) && #[trigger] f(x1) == #[trigger] f(x2) implies x1 == x2 by {
        assert(connected(fl, m, x1, x2));
        lemma_connected_symm(fl, m, x1, x2);
        if x1 < x2 {
            assert(!connected(fl, m, x1, x2));
        } else if x2 < x1 {
            assert(!connected(fl, m, x2, x1));
        }
    }
    assert(injective_on(f, l));
    assert forall|y: int| #[trigger] r.contains(y) <==> l.map(f).contains(y) by {
        if r.contains(y) {
            lemma_first_cell(fl, m, y);
            let i = choose|i: int| 0 <= i <= y && is_leader(fl, m, i) && #[trigger] connected(fl, m, i, y);
            assert(d.leader@[y] == y);
            assert(l.contains(i) && y == f(i));
        }
        if l.map(f).contains(y) {
            let i = choose|i: int| l.contains(i) && y == f(i);
            assert(d.is_root(d.leader@[i]));
            assert(fl[d.leader@[i]] == fl[i]);
        }
    }
    assert(l.map(f) =~= r);
    lemma_map_size(l, r, f);
}

/// Counts the rooms by union-find: start from one room per floor cell and
/// merge the sets of every pair of adjacent floor cells.
pub fn count_rooms(g: &Grid) -> (rooms: u32)
    requires
        g.wf(),
        g.floor.len() <= u32::MAX,
    ensures
        rooms == room_count(g.floor@, g.m as int),
{
    let size = g.floor.len();
    let m = g.m;
    let ghost fl = g.floor@;
    let ghost mm = m as int;
    if size > 0 {
        assert(m > 0) by (nonlinear_arith)
            requires size == g.n * m, size > 0;
    }
    let mut dsu = Dsu::new(size);
    let mut rooms: u32 = 0;
    let mut i: usize = 0;
    proof {
        assert(Set::new(|y: int| 0 <= y < 0 && fl[y]) =~= Set::<int>::empty());
    }
    while i < size
        invariant
            size == fl.len(),
            fl == g.floor@,
            size <= u32::MAX,
            i <= size,
            rooms == Set::new(|y: int| 0 <= y < i && fl[y]).len(),
            Set::new(|y: int| 0 <= y < i && fl[y]).finite(),
        decreases size - i,
    {
        let ghost before = Set::new(|y: int| 0 <= y < i && fl[y]);
        if g.floor[i] {
            proof {
                assert(Set::new(|y: int| 0 <= y < i + 1 && fl[y]) =~= before.insert(i as int));
                lemma_int_range(0, i as int);
                lemma_len_subset(before, set_int_range(0, i as int));
            }
            rooms += 1;
        } else {
            proof {
                assert(Set::new(|y: int| 0 <= y < i + 1 && fl[y]) =~= before);
            }
        }
        i += 1;
    }
    proof {
        assert(floor_roots(dsu, fl) =~= Set::new(|y: int| 0 <= y < size && fl[y]));
        assert forall|x: int, y: int| 0 <= x < fl.len() && 0 <= y < fl.len() && fl[x] && fl[y]
            && #[trigger] dsu.leader@[x] == #[trigger] dsu.leader@[y] implies connected(fl, mm, x, y) by {
            crate::counting_rooms::lemma_connected_refl(fl, mm, x);
        }
    }
    let mut i: usize = 0;
    while i < size
        invariant
            size == fl.len(),
            fl == g.floor@,
            mm == m,
            size == g.n * m,
            size > 0 ==> m > 0,
            i <= size,
            dsu.wf(),
            dsu.len() == size,
            forall|x: int| 0 <= x < size ==> fl[#[trigger] dsu.leader@[x]] == fl[x],
            forall|x: int, y: int| 0 <= x < size && 0 <= y < size && fl[x] && fl[y]
                && #[trigger] dsu.leader@[x] == #[trigger] dsu.leader@[y] ==> connected(fl, mm, x, y),
            forall|x: int, y: int| 0 <= x < i && #[trigger] scan_edge(fl, mm, x, y) ==> dsu.leader@[x] == dsu.leader@[y],
            floor_roots(dsu, fl).finite(),
            rooms == floor_roots(dsu, fl).len(),
        decreases size - i,
    {
        proof {
            lemma_neighbours(g.n as int, mm, size as int, i as int);
        }
        if g.floor[i] {
            if i % m + 1 < m && g.floor[i + 1] {
                proof {
                    assert(adjacent(mm, size as int, i as int, i + 1));
                }
                union_adjacent(&mut dsu, &mut rooms, i, i + 1, Ghost(fl), Ghost(mm));
            }
            if m < size - i && g.floor[i + m] {
                proof {
                    assert(adjacent(mm, size as int, i as int, i + m));
                }
                union_adjacent(&mut dsu, &mut rooms, i, i + m, Ghost(fl), Ghost(mm));
            }
        }
        proof {
            assert forall|x: int, y: int| 0 <= x < i + 1 && #[trigger] scan_edge(fl, mm, x, y) implies dsu.leader@[x] == dsu.leader@[y] by {
                if x == i {
                    if y == x + m {
                        assert(m < size - i);
                    }
                }
            }
        }
        i += 1;
    }
    proof {
        assert forall|x: int, y: int| #[trigger] adjacent(mm, fl.len() as int, x, y) && fl[x] && fl[y] implies dsu.leader@[x] == dsu.leader@[y] by {
            if y == x + mm || (y == x + 1 && x % mm + 1 < mm) {
                assert(scan_edge(fl, mm, x, y));
            } else {
                assert(scan_edge(fl, mm, y, x));
            }
        }
        assert forall|x: int, y: int| #[trigger] connected(fl, mm, x, y) implies dsu.leader@[x] == dsu.leader@[y] by {
            let w = choose|w: Seq<int>| #[trigger] is_walk(fl, mm, w) && w[0] == x && w.last() == y;
            lemma_walk_same_leader(fl, mm, dsu.leader@, w, w.len() - 1);
        }
        lemma_root_count(fl, mm, dsu);
    }
    rooms
}

/// Unions two adjacent floor cells, counting one room fewer when their sets
/// were different.
fn union_adjacent(dsu: &mut Dsu, rooms: &mut u32, a: usize, b: usize, Ghost(fl): Ghost<Seq<bool>>, Ghost(m): Ghost<int>)
    requires
        old(dsu).wf(),
        old(dsu).len() == fl.len(),
        adjacent(m, fl.len() as int, a as int, b as int),
        fl[a as int],
        fl[b as int],
        forall|x: int| 0 <= x < fl.len() ==> fl[#[trigger] old(dsu).leader@[x]] == fl[x],
        forall|x: int, y: int| 0 <= x < fl.len() && 0 <= y < fl.len() && fl[x] && fl[y]
            && #[trigger] old(dsu).leader@[x] == #[trigger] old(dsu).leader@[y] ==> connected(fl, m, x, y),
        floor_roots(*old(dsu), fl).finite(),
        *old(rooms) == floor_roots(*old(dsu), fl).len(),
    ensures
        final(dsu).wf(),
        final(dsu).len() == fl.len(),
        final(dsu).leader@[a as int] == final(dsu).leader@[b as int],
        forall|x: int| 0 <= x < fl.len() ==> fl[#[trigger] final(dsu).leader@[x]] == fl[x],
        forall|x: int, y: int| 0 <= x < fl.len() && 0 <= y < fl.len() && fl[x] && fl[y]
            && #[trigger] final(dsu).leader@[x] == #[trigger] final(dsu).leader@[y] ==> connected(fl, m, x, y),
        forall|x: int, y: int| 0 <= x < fl.len() && 0 <= y < fl.len()
            && old(dsu).leader@[x] == old(dsu).leader@[y] ==> #[trigger] final(dsu).leader@[x] == #[trigger] final(dsu).leader@[y],
        floor_roots(*final(dsu), fl).finite(),
        *final(rooms) == floor_roots(*final(dsu), fl).len(),
{
    let ghost d0 = *dsu;
    let ghost n = fl.len() as int;
    let merged = dsu.union(a as u32, b as u32);
    proof {
        let ra = d0.leader@[a as int];
        let rb = d0.leader@[b as int];
        let w = dsu.leader@[a as int];
        lemma_adjacent_connected(fl, m, a as int, b as int);
        if merged {
            assert(fl[ra] && fl[rb]);
            assert forall|x: int| 0 <= x < n implies fl[#[trigger] dsu.leader@[x]] == fl[x] by {
                assert(fl[d0.leader@[x]] == fl[x]);
            }
            assert forall|x: int, y: int| 0 <= x < n && 0 <= y < n && fl[x] && fl[y]
                && #[trigger] dsu.leader@[x] == #[trigger] dsu.leader@[y] implies connected(fl, m, x, y) by {
                let lx = d0.leader@[x];
                let ly = d0.leader@[y];
                if (lx == ra || lx == rb) && (ly == ra || ly == rb) {
                    // x ~ a or b, y ~ a or b, and a ~ b.
                    let px = if lx == ra { a as int } else { b as int };
                    let py = if ly == ra { a as int } else { b as int };
                    assert(d0.leader@[px] == lx);
                    assert(d0.leader@[py] == ly);
                    assert(connected(fl, m, x, px));
                    assert(connected(fl, m, py, y));
                    if px != py {
                        if px == a as int {
                            lemma_connected_trans(fl, m, x, px, py);
                        } else {
                            lemma_connected_symm(fl, m, a as int, b as int);
                            lemma_connected_trans(fl, m, x, px, py);
                        }
                        lemma_connected_trans(fl, m, x, py, y);
                    } else {
                        lemma_connected_trans(fl, m, x, px, y);
                    }
                } else {
                    assert(dsu.leader@[x] == lx || dsu.leader@[y] == ly);
                }
            }
            let loser = if w == ra { rb } else { ra };
            assert(d0.is_root(ra) && d0.is_root(rb));
            assert(floor_roots(*dsu, fl) =~= floor_roots(d0, fl).remove(loser));
            assert(floor_roots(d0, fl).contains(loser));
        } else {
            assert(floor_roots(*dsu, fl) =~= floor_roots(d0, fl));
        }
    }
    if merged {
        *rooms -= 1;
    }
}

} // verus!
