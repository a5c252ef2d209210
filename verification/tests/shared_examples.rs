//! The worked examples of the problem statements, where two problems' test
//! suites use the same test name.

use lib::counting_rooms::{self, Grid};
use lib::finding_borders::{kmp, zalgo};
use std::collections::VecDeque;
use lib::labyrinth::{self, Maze};

fn oracle_len(maze: &Maze) -> Option<usize> {
    let size = maze.n * maze.m;
    let mut dist = vec![usize::MAX; size];
    let mut q = VecDeque::new();
    dist[maze.start] = 0;
    q.push_back(maze.start);
    while let Some(cur) = q.pop_front() {
        if cur == maze.end {
            return Some(dist[cur]);
        }
        let (r, c) = (cur / maze.m, cur % maze.m);
        for (dr, dc) in [(-1isize, 0isize), (1, 0), (0, -1), (0, 1)] {
            let nr = r as isize + dr;
            let nc = c as isize + dc;
            if nr < 0 || nc < 0 || nr >= maze.n as isize || nc >= maze.m as isize {
                continue;
            }
            let nidx = nr as usize * maze.m + nc as usize;
            if maze.passable(nidx) && dist[nidx] == usize::MAX {
                dist[nidx] = dist[cur] + 1;
                q.push_back(nidx);
            }
        }
    }
    if dist[maze.end] == usize::MAX { None } else { Some(dist[maze.end]) }
}

fn validate(maze: &Maze, path: &[u8]) -> Option<usize> {
    let (mut r, mut c) = (maze.start / maze.m, maze.start % maze.m);
    for &mv in path {
        let (dr, dc) = match mv {
            b'U' => (-1isize, 0isize),
            b'D' => (1, 0),
            b'L' => (0, -1),
            b'R' => (0, 1),
            _ => return None,
        };
        let nr = r as isize + dr;
        let nc = c as isize + dc;
        if nr < 0 || nc < 0 || nr >= maze.n as isize || nc >= maze.m as isize {
            return None;
        }
        r = nr as usize;
        c = nc as usize;
        if !maze.passable(r * maze.m + c) {
            return None;
        }
    }
    if r * maze.m + c == maze.end { Some(path.len()) } else { None }
}

/// Both searches agree with the oracle, and each path they return is legal.
fn check_labyrinth(maze: &Maze) {
    let want = oracle_len(maze);
    let rb = labyrinth::bfs::solve(maze);
    let ra = labyrinth::astar::solve(maze);
    assert_eq!(rb.length(), want, "bfs length disagrees with oracle");
    assert_eq!(ra.length(), want, "astar length disagrees with oracle");
    if let Some(p) = &rb.path {
        assert_eq!(validate(maze, p), Some(p.len()), "bfs path invalid");
    }
    if let Some(p) = &ra.path {
        assert_eq!(validate(maze, p), Some(p.len()), "astar path invalid");
    }
}

#[test]
fn bfs_matches_example() {
    // Counting rooms by breadth-first flood fill.
    let rows: [&[u8]; 5] = [
        b"########",
        b"#..#...#",
        b"####.#.#",
        b"#..#...#",
        b"########",
    ];
    assert_eq!(counting_rooms::bfs::count_rooms(&Grid::from_rows(&rows)), 3);
    // Labyrinth by breadth-first search.
    let input = "5 8\n########\n#.A#...#\n#.##.#B#\n#......#\n########\n";
    let maze = Maze::parse(input);
    let r = labyrinth::bfs::solve(&maze);
    assert_eq!(r.length(), Some(9));
}

#[test]
fn integration_matches_example() {
    // Counting rooms: all three counters.
    let rows: [&[u8]; 5] = [b"########", b"#..#...#", b"####.#.#", b"#..#...#", b"########"];
    let g = Grid::from_rows(&rows);
    assert_eq!(
        (
            counting_rooms::bfs::count_rooms(&g),
            counting_rooms::dfs::count_rooms(&g),
            counting_rooms::union_find::count_rooms(&g)
        ),
        (3, 3, 3)
    );
    // Finding borders: both algorithms.
    assert_eq!(kmp::border_lengths(b"abcababcab"), vec![2, 5]);
    assert_eq!(zalgo::border_lengths(b"abcababcab"), vec![2, 5]);
    // Labyrinth: both searches give a legal path of the shortest length.
    let input = "5 8\n########\n#.A#...#\n#.##.#B#\n#......#\n########\n";
    let maze = Maze::parse(input);
    check_labyrinth(&maze);
    assert_eq!(oracle_len(&maze), Some(9));
}
