//! Breadth-first flood fill: each unvisited floor cell met in row-major order
//! starts a new room, whose cells are then visited through a FIFO queue.

use vstd::prelude::*;
use std::collections::VecDeque;
use crate::counting_rooms::{
    Grid, adjacent, covered, flood_inv, lemma_cover_leader, lemma_cover_skip, lemma_flood_begin,
    lemma_flood_end, lemma_flood_settle, lemma_flood_take, lemma_flood_visit, lemma_neighbours,
    lemma_rooms_before_bound, lemma_unvisited_update, room_count, rooms_before, unvisited,
};

verus! {

/// Visits the floor cell `b`, a neighbour of the cell being expanded, unless it
/// is a wall or already visited, and queues it.
fn try_push(
    floor: &Vec<bool>,
    visited: &mut Vec<bool>,
    queue: &mut VecDeque<usize>,
    b: usize,
    Ghost(m): Ghost<int>,
    Ghost(start): Ghost<int>,
    Ghost(cur): Ghost<int>,
)
    requires
        flood_inv(floor@, m, old(visited)@, start, old(queue)@, cur),
        cur >= 0,
        adjacent(m, floor@.len() as int, cur, b as int),
    ensures
        flood_inv(floor@, m, final(visited)@, start, final(queue)@, cur),
        floor@[b as int] ==> final(visited)@[b as int],
        final(visited)@.len() == old(visited)@.len(),
        forall|x: int| 0 <= x < old(visited)@.len() && old(visited)@[x] ==> final(visited)@[x],
        unvisited(final(visited)@) <= unvisited(old(visited)@),
        unvisited(final(visited)@) == unvisited(old(visited)@) ==> final(queue)@ == old(queue)@,
{
    if floor[b] && !visited[b] {
        proof {
            lemma_flood_visit(floor@, m, visited@, start, queue@, cur, b as int);
            lemma_unvisited_update(visited@, b as int);
        }
        visited.set(b, true);
        queue.push_back(b);
    }
}

/// Counts the rooms of the grid by breadth-first flood fill.
pub fn count_rooms(g: &Grid) -> (rooms: u32)
    requires
        g.wf(),
        g.floor.len() <= u32::MAX,
    ensures
        rooms == room_count(g.floor@, g.m as int),
{
    let size = g.floor.len();
    let m = g.m;
    let ghost fl = g.floor@;
    let ghost mm = m as int;
    let mut visited: Vec<bool> = vec![false; size];
    let mut queue: VecDeque<usize> = VecDeque::new();
    let mut rooms: u32 = 0;
    if size > 0 {
        assert(m > 0) by (nonlinear_arith)
            requires size == g.n * m, size > 0;
    }
    proof {
        assert forall|i: int| 0 <= i < size implies (visited@[i] <==> covered(fl, mm, 0, i)) by {
            assert(!visited@[i]);
        }
    }
    let mut start: usize = 0;
    while start < size
        invariant
            size == fl.len(),
            fl == g.floor@,
            mm == m,
            size > 0 ==> m > 0,
            size == g.n * m,
            size <= u32::MAX,
            visited.len() == size,
            start <= size,
            forall|i: int| 0 <= i < size ==> (visited@[i] <==> covered(fl, mm, start as int, i)),
            rooms == rooms_before(fl, mm, start as int),
            queue@.len() == 0,
        decreases size - start,
    {
        if !g.floor[start] || visited[start] {
            proof {
                lemma_cover_skip(fl, mm, visited@, start as int);
            }
        } else {
            proof {
                lemma_cover_leader(fl, mm, visited@, start as int);
                lemma_rooms_before_bound(fl, mm, start as int);
                lemma_flood_begin(fl, mm, visited@, start as int);
            }
            rooms += 1;
            visited.set(start, true);
            queue.push_back(start);
            proof {
                assert(queue@ =~= seq![start]);
            }
            while queue.len() > 0
                invariant
                    size == fl.len(),
                    fl == g.floor@,
                    mm == m,
                    m > 0,
                    size == g.n * m,
                    visited.len() == size,
                    flood_inv(fl, mm, visited@, start as int, queue@, -1),
                decreases unvisited(visited@), queue@.len(),
            {
                let ghost before = queue@;
                let cur = queue.pop_front().unwrap();
                proof {
                    assert(queue@ =~= before.remove(0));
                    lemma_flood_take(fl, mm, visited@, start as int, before, 0, queue@);
                    lemma_neighbours(g.n as int, mm, size as int, cur as int);
                }
                let ghost popped = queue@;
                let ghost vis0 = visited@;
                if cur >= m {
                    try_push(&g.floor, &mut visited, &mut queue, cur - m, Ghost(mm), Ghost(start as int), Ghost(cur as int));
                }
                if m < size - cur {
                    try_push(&g.floor, &mut visited, &mut queue, cur + m, Ghost(mm), Ghost(start as int), Ghost(cur as int));
                }
                if cur % m > 0 {
                    try_push(&g.floor, &mut visited, &mut queue, cur - 1, Ghost(mm), Ghost(start as int), Ghost(cur as int));
                }
                if cur % m + 1 < m {
                    try_push(&g.floor, &mut visited, &mut queue, cur + 1, Ghost(mm), Ghost(start as int), Ghost(cur as int));
                }
                proof {
                    lemma_flood_settle(fl, mm, visited@, start as int, queue@, cur as int);
                }
            }
            proof {
                assert(queue@ =~= Seq::<usize>::empty());
                lemma_flood_end(fl, mm, visited@, start as int);
            }
        }
        start += 1;
    }
    rooms
}

} // verus!
