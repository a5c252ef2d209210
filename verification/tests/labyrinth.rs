//! Tests for "Labyrinth": both searches against an independent oracle.

use std::cmp::Reverse;
use std::collections::{BinaryHeap, VecDeque};
use lib::labyrinth::{astar, bfs, reconstruct, Maze};
use lib::labyrinth::text::check_format;

fn oracle_len(maze: &Maze) -> Option<usize> {
    let size = maze.n * maze.m;
    let mut dist = vec![usize::MAX; size];
    let mut q = VecDeque::new();
    dist[maze.start] = 0;
    q.push_back(maze.start);
    while let Some(cur) = q.pop_front() {
        if cur == maze.end {
            return Some(dist[cur]);
        }
        let (r, c) = (cur / maze.m, cur % maze.m);
        for (dr, dc) in [(-1isize, 0isize), (1, 0), (0, -1), (0, 1)] {
            let nr = r as isize + dr;
            let nc = c as isize + dc;
            if nr < 0 || nc < 0 || nr >= maze.n as isize || nc >= maze.m as isize {
                continue;
            }
            let nidx = nr as usize * maze.m + nc as usize;
            if maze.passable(nidx) && dist[nidx] == usize::MAX {
                dist[nidx] = dist[cur] + 1;
                q.push_back(nidx);
            }
        }
    }
    if dist[maze.end] == usize::MAX { None } else { Some(dist[maze.end]) }
}

fn validate(maze: &Maze, path: &[u8]) -> Option<usize> {
    let (mut r, mut c) = (maze.start / maze.m, maze.start % maze.m);
    for &mv in path {
        let (dr, dc) = match mv {
            b'U' => (-1isize, 0isize),
            b'D' => (1, 0),
            b'L' => (0, -1),
            b'R' => (0, 1),
            _ => return None,
        };
        let nr = r as isize + dr;
        let nc = c as isize + dc;
        if nr < 0 || nc < 0 || nr >= maze.n as isize || nc >= maze.m as isize {
            return None;
        }
        r = nr as usize;
        c = nc as usize;
        if !maze.passable(r * maze.m + c) {
            return None;
        }
    }
    if r * maze.m + c == maze.end { Some(path.len()) } else { None }
}

struct Lcg(u64);
impl Lcg {
    fn next_u32(&mut self, modulo: u32) -> u32 {
        self.0 = self.0.wrapping_mul(6364136223846793005).wrapping_add(1);
        ((self.0 >> 33) as u32) % modulo
    }
}

fn random_maze(rng: &mut Lcg, n: usize, m: usize, wall_pct: u32) -> Maze {
    let size = n * m;
    let mut cells = vec![b'.'; size];
    for cell in cells.iter_mut() {
        if rng.next_u32(100) < wall_pct {
            *cell = b'#';
        }
    }
    let a = rng.next_u32(size as u32) as usize;
    let mut b = rng.next_u32(size as u32) as usize;
    while b == a {
        b = rng.next_u32(size as u32) as usize;
    }
    cells[a] = b'A';
    cells[b] = b'B';
    Maze { n, m, cells, start: a, end: b }
}

fn check(maze: &Maze) {
    let want = oracle_len(maze);
    let rb = bfs::solve(maze);
    let ra = astar::solve(maze);
    assert_eq!(rb.length(), want, "bfs length disagrees with oracle");
    assert_eq!(ra.length(), want, "astar length disagrees with oracle");
    if let Some(p) = &rb.path {
        assert_eq!(validate(maze, p), Some(p.len()), "bfs path invalid");
    }
    if let Some(p) = &ra.path {
        assert_eq!(validate(maze, p), Some(p.len()), "astar path invalid");
    }
}

const EXAMPLE: &str = "5 8\n########\n#.A#...#\n#.##.#B#\n#......#\n########\n";

#[test]
fn astar_matches_example() {
    let maze = Maze::parse(EXAMPLE);
    let r = astar::solve(&maze);
    assert_eq!(r.length(), Some(9));
}

#[test]
fn random_mazes_various_densities() {
    let mut rng = Lcg(0x243f_6a88_85a3_08d3);
    for _ in 0..300 {
        let n = 1 + rng.next_u32(30) as usize;
        let m = 1 + rng.next_u32(30) as usize;
        let wall_pct = rng.next_u32(60);
        check(&random_maze(&mut rng, n, m, wall_pct));
    }
}

#[test]
fn no_path_when_walled_off() {
    let input = "3 3\nA.#\n.##\n##B\n";
    let maze = Maze::parse(input);
    assert_eq!(bfs::solve(&maze).length(), None);
    assert_eq!(astar::solve(&maze).length(), None);
}

#[test]
fn open_map_is_manhattan() {
    let mut cells = vec![b'.'; 10 * 10];
    cells[0] = b'A';
    cells[99] = b'B';
    let maze = Maze { n: 10, m: 10, cells, start: 0, end: 99 };
    assert_eq!(bfs::solve(&maze).length(), Some(18));
    assert_eq!(astar::solve(&maze).length(), Some(18));
}

#[test]
fn large_map_agreement() {
    let mut rng = Lcg(0xb7e1_5162_8aed_2a6b);
    for &wall in &[20u32, 40] {
        let maze = random_maze(&mut rng, 1000, 1000, wall);
        let rb = bfs::solve(&maze);
        let ra = astar::solve(&maze);
        assert_eq!(rb.length(), ra.length(), "bfs/astar disagree at wall%={wall}");
    }
}

#[test]
fn parse_reads_header_rows_and_endpoints() {
    let maze = Maze::parse("2 3\r\nA.#\r\n.#B\r\n");
    assert_eq!((maze.n, maze.m), (2, 3));
    assert_eq!(maze.cells, b"A.#.#B".to_vec());
    assert_eq!((maze.start, maze.end), (0, 5));
    assert!(maze.passable(1));
    assert!(!maze.passable(2));
    assert_eq!(maze.manhattan(0), 3);
    assert_eq!(maze.manhattan(5), 0);
    assert_eq!(maze.manhattan(3), 2);
}

#[test]
fn example_path_is_the_expected_one() {
    let maze = Maze::parse(EXAMPLE);
    let rb = bfs::solve(&maze);
    assert_eq!(rb.path, Some(b"LDDRRRRRU".to_vec()));
    assert!(rb.expanded >= 1 && rb.expanded <= 40);
    let ra = astar::solve(&maze);
    assert_eq!(validate(&maze, ra.path.as_ref().unwrap()), Some(9));
}

#[test]
fn start_equal_to_end_gives_empty_path() {
    let maze = Maze { n: 1, m: 1, cells: b"A".to_vec(), start: 0, end: 0 };
    assert_eq!(bfs::solve(&maze).path, Some(Vec::new()));
    assert_eq!(astar::solve(&maze).path, Some(Vec::new()));
}

#[test]
fn reconstruct_follows_parents() {
    // cells 0 -> 1 -> 4 in a 3-wide grid: R then D.
    let parent = [u32::MAX, 0, u32::MAX, u32::MAX, 1];
    let came = [0u8, b'R', 0, 0, b'D'];
    assert_eq!(reconstruct(0, 4, &parent, &came), b"RD".to_vec());
    assert_eq!(reconstruct(0, 0, &parent, &came), Vec::<u8>::new());
}

#[test]
fn check_format_accepts_what_parse_reads() {
    assert!(check_format(b"5 8\n########\n#.A#...#\n#.##.#B#\n#......#\n########\n"));
    assert!(check_format(b"2 2\r\nAB\r\n..\r\n"));
    assert!(check_format(b"0 5\n"));
    assert!(check_format(b" +2  3 extra\nA.Bxx\n...\n"));
    // Missing or short lines, bad or missing numbers.
    assert!(!check_format(b""));
    assert!(!check_format(b"3 2\nAB\n..\n"));
    assert!(!check_format(b"2 3\nAB.\n..\n"));
    assert!(!check_format(b"2\nAB\n..\n"));
    assert!(!check_format(b"2 x\nAB\n..\n"));
    assert!(!check_format(b"-1 2\nAB\n"));
    assert!(!check_format(b"99999999999999999999 1\nA\n"));
    assert!(!check_format(b"4294967296 4294967296\n"));
}

#[test]
fn unreachable_end_expands_every_reachable_cell() {
    let maze = Maze::parse("3 3\nA.#\n.##\n##B\n");
    let b = bfs::solve(&maze);
    let a = astar::solve(&maze);
    assert_eq!(b.path, None);
    assert_eq!(a.path, None);
    assert_eq!(b.expanded, 3);
    assert_eq!(a.expanded, 3);
    let maze = Maze::parse("2 5\nA..#.\n.#.#B\n");
    assert_eq!(bfs::solve(&maze).expanded, 5);
    assert_eq!(astar::solve(&maze).expanded, 5);
}

/// Shortest distances from the start to every cell (`usize::MAX` when out
/// of reach).
fn distances(maze: &Maze) -> Vec<usize> {
    let size = maze.n * maze.m;
    let mut dist = vec![usize::MAX; size];
    let mut q = VecDeque::new();
    dist[maze.start] = 0;
    q.push_back(maze.start);
    while let Some(cur) = q.pop_front() {
        let (r, c) = (cur / maze.m, cur % maze.m);
        for (dr, dc) in [(-1isize, 0isize), (1, 0), (0, -1), (0, 1)] {
            let nr = r as isize + dr;
            let nc = c as isize + dc;
            if nr < 0 || nc < 0 || nr >= maze.n as isize || nc >= maze.m as isize {
                continue;
            }
            let nidx = nr as usize * maze.m + nc as usize;
            if maze.passable(nidx) && dist[nidx] == usize::MAX {
                dist[nidx] = dist[cur] + 1;
                q.push_back(nidx);
            }
        }
    }
    dist
}

#[test]
fn expanded_counts_lie_between_the_closer_and_the_reachable_cells() {
    let mut rng = Lcg(99);
    for wall in [0u32, 15, 30] {
        for _ in 0..40 {
            let maze = random_maze(&mut rng, 12, 17, wall);
            let dist = distances(&maze);
            let Some(c) = oracle_len(&maze) else { continue };
            let within = |k: usize| dist.iter().filter(|&&d| d != usize::MAX && d <= k).count() as u64;
            let promising = |k: usize| {
                (0..dist.len())
                    .filter(|&v| dist[v] != usize::MAX && dist[v] + maze.manhattan(v) as usize <= k)
                    .count() as u64
            };
            let b = bfs::solve(&maze).expanded;
            let a = astar::solve(&maze).expanded;
            let below = |k: usize, f: &dyn Fn(usize) -> u64| if k == 0 { 0 } else { f(k - 1) };
            assert!(below(c, &within) < b && b <= within(c), "bfs expanded {b} with c={c}");
            assert!(below(c, &promising) < a && a <= promising(c), "astar expanded {a} with c={c}");
        }
    }
}

#[test]
fn manhattan_reads_only_width_and_end() {
    // Any index may be asked for, also one past the grid.
    let maze = Maze::parse("2 3\nA..\n..B\n");
    assert_eq!(maze.manhattan(100), 33);
    assert_eq!(maze.manhattan(0), 3);
}

/// The cells in the order a FIFO search queues them, neighbours taken up,
/// down, left, right.
fn fifo_order(maze: &Maze) -> Vec<usize> {
    let mut order = vec![maze.start];
    let mut seen = vec![false; maze.n * maze.m];
    seen[maze.start] = true;
    let mut h = 0;
    while h < order.len() {
        let cur = order[h];
        h += 1;
        let (r, c) = (cur / maze.m, cur % maze.m);
        for (dr, dc) in [(-1isize, 0isize), (1, 0), (0, -1), (0, 1)] {
            let nr = r as isize + dr;
            let nc = c as isize + dc;
            if nr < 0 || nc < 0 || nr >= maze.n as isize || nc >= maze.m as isize {
                continue;
            }
            let nidx = nr as usize * maze.m + nc as usize;
            if maze.passable(nidx) && !seen[nidx] {
                seen[nidx] = true;
                order.push(nidx);
            }
        }
    }
    order
}

#[test]
fn bfs_expanded_is_the_place_of_the_end_in_the_queue_order() {
    let maze = Maze::parse(EXAMPLE);
    let order = fifo_order(&maze);
    let place = order.iter().position(|&v| v == maze.end).unwrap();
    assert_eq!(bfs::solve(&maze).expanded as usize, place + 1);
    let mut rng = Lcg(0x1357_9bdf_2468_ace0);
    for _ in 0..200 {
        // At least two cells, so that start and end differ.
        let n = 2 + rng.next_u32(19) as usize;
        let m = 1 + rng.next_u32(20) as usize;
        let wall_pct = rng.next_u32(50);
        let maze = random_maze(&mut rng, n, m, wall_pct);
        let order = fifo_order(&maze);
        let r = bfs::solve(&maze);
        match order.iter().position(|&v| v == maze.end) {
            Some(place) => assert_eq!(r.expanded as usize, place + 1),
            None => assert_eq!(r.expanded as usize, order.len()),
        }
    }
}

/// The cells a min-heap search on `(g + h, cell)` expands before it takes
/// the end off the heap, stale entries skipped.
fn heap_expanded(maze: &Maze) -> u64 {
    let size = maze.n * maze.m;
    let mut g = vec![u32::MAX; size];
    let mut heap = BinaryHeap::new();
    g[maze.start] = 0;
    heap.push(Reverse((maze.manhattan(maze.start), maze.start as u32)));
    let mut expanded = 0u64;
    while let Some(Reverse((f, cur))) = heap.pop() {
        let cur = cur as usize;
        if f > g[cur] + maze.manhattan(cur) {
            continue;
        }
        expanded += 1;
        if cur == maze.end {
            break;
        }
        let (r, c) = (cur / maze.m, cur % maze.m);
        for (dr, dc) in [(-1isize, 0isize), (1, 0), (0, -1), (0, 1)] {
            let nr = r as isize + dr;
            let nc = c as isize + dc;
            if nr < 0 || nc < 0 || nr >= maze.n as isize || nc >= maze.m as isize {
                continue;
            }
            let nidx = nr as usize * maze.m + nc as usize;
            let ng = g[cur] + 1;
            if maze.passable(nidx) && ng < g[nidx] {
                g[nidx] = ng;
                heap.push(Reverse((ng + maze.manhattan(nidx), nidx as u32)));
            }
        }
    }
    expanded
}

#[test]
fn astar_expanded_follows_the_heap_order() {
    let maze = Maze::parse(EXAMPLE);
    assert_eq!(astar::solve(&maze).expanded, heap_expanded(&maze));
    let mut rng = Lcg(0x2468_ace0_1357_9bdf);
    for _ in 0..200 {
        let n = 2 + rng.next_u32(19) as usize;
        let m = 1 + rng.next_u32(20) as usize;
        let wall_pct = rng.next_u32(50);
        let maze = random_maze(&mut rng, n, m, wall_pct);
        assert_eq!(astar::solve(&maze).expanded, heap_expanded(&maze));
    }
}
