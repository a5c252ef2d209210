//! Tests for "Counting Rooms": all three counters against a reference.

use lib::counting_rooms::{bfs, dfs, union_find, Grid};

fn reference(n: usize, m: usize, floor: &[bool]) -> u32 {
    fn fill(r: usize, c: usize, n: usize, m: usize, floor: &[bool], seen: &mut [bool]) {
        let i = r * m + c;
        if !floor[i] || seen[i] {
            return;
        }
        seen[i] = true;
        if r > 0 { fill(r - 1, c, n, m, floor, seen); }
        if r + 1 < n { fill(r + 1, c, n, m, floor, seen); }
        if c > 0 { fill(r, c - 1, n, m, floor, seen); }
        if c + 1 < m { fill(r, c + 1, n, m, floor, seen); }
    }
    let mut seen = vec![false; n * m];
    let mut rooms = 0;
    for r in 0..n {
        for c in 0..m {
            if floor[r * m + c] && !seen[r * m + c] {
                rooms += 1;
                fill(r, c, n, m, floor, &mut seen);
            }
        }
    }
    rooms
}

struct Lcg(u64);
impl Lcg {
    fn next(&mut self, modulo: u32) -> u32 {
        self.0 = self.0.wrapping_mul(6364136223846793005).wrapping_add(1);
        ((self.0 >> 33) as u32) % modulo
    }
}

fn all_three(g: &Grid) -> (u32, u32, u32) {
    (bfs::count_rooms(g), dfs::count_rooms(g), union_find::count_rooms(g))
}

fn example_grid() -> Grid {
    let rows: [&[u8]; 5] = [
        b"########",
        b"#..#...#",
        b"####.#.#",
        b"#..#...#",
        b"########",
    ];
    Grid::from_rows(&rows)
}

#[test]
fn dfs_matches_example() {
    assert_eq!(dfs::count_rooms(&example_grid()), 3);
}

#[test]
fn union_find_matches_example() {
    assert_eq!(union_find::count_rooms(&example_grid()), 3);
}

#[test]
fn random_small_grids_match_reference() {
    let mut rng = Lcg(0xabcd_1234_5678_9999);
    for _ in 0..300 {
        let n = 1 + rng.next(20) as usize;
        let m = 1 + rng.next(20) as usize;
        let floor: Vec<bool> = (0..n * m).map(|_| rng.next(100) >= 45).collect();
        let g = Grid::new(n, m, floor.clone());
        let want = reference(n, m, &floor);
        let (b, d, u) = all_three(&g);
        assert_eq!(b, want, "bfs n={n} m={m}");
        assert_eq!(d, want, "dfs n={n} m={m}");
        assert_eq!(u, want, "uf  n={n} m={m}");
    }
}

#[test]
fn structured_known_counts() {
    let g = Grid::new(50, 50, vec![false; 2500]);
    assert_eq!(all_three(&g), (0, 0, 0));

    let g = Grid::new(50, 50, vec![true; 2500]);
    assert_eq!(all_three(&g), (1, 1, 1));

    let (n, m) = (51usize, 51);
    let floor: Vec<bool> = (0..n * m).map(|i| ((i / m) + (i % m)) % 2 == 0).collect();
    let expected = floor.iter().filter(|&&f| f).count() as u32;
    let g = Grid::new(n, m, floor);
    assert_eq!(all_three(&g), (expected, expected, expected));

    let (n, m) = (40usize, 41);
    let floor: Vec<bool> = (0..n * m).map(|i| (i % m) % 2 == 0).collect();
    let expected = ((m + 1) / 2) as u32;
    let g = Grid::new(n, m, floor);
    assert_eq!(all_three(&g), (expected, expected, expected));
}

#[test]
fn one_giant_room_at_limit() {
    let (n, m) = (1000usize, 1000);
    let g = Grid::new(n, m, vec![true; n * m]);
    assert_eq!(all_three(&g), (1, 1, 1));
}

#[test]
fn max_components_at_limit() {
    let (n, m) = (1000usize, 1000);
    let floor: Vec<bool> = (0..n * m).map(|i| ((i / m) + (i % m)) % 2 == 0).collect();
    let expected = floor.iter().filter(|&&f| f).count() as u32;
    let g = Grid::new(n, m, floor);
    assert_eq!(all_three(&g), (expected, expected, expected));
}

#[test]
fn from_rows_reads_floor_and_pads_short_rows() {
    let rows: [&[u8]; 3] = [b"..#", b".", b"#.#."];
    let g = Grid::from_rows(&rows);
    assert_eq!((g.n, g.m), (3, 3));
    assert_eq!(g.floor, vec![true, true, false, true, false, false, false, true, false]);
    assert_eq!(g.idx(2, 1), 7);
    assert_eq!(all_three(&g), (2, 2, 2));
}

#[test]
fn empty_grid_has_no_rooms() {
    let rows: [&[u8]; 0] = [];
    let g = Grid::from_rows(&rows);
    assert_eq!((g.n, g.m), (0, 0));
    assert_eq!(all_three(&g), (0, 0, 0));
    let g = Grid::new(3, 0, Vec::new());
    assert_eq!(all_three(&g), (0, 0, 0));
}

#[test]
fn row_wrap_does_not_connect() {
    // The last cell of a row and the first of the next are not adjacent.
    let g = Grid::new(2, 2, vec![false, true, true, false]);
    assert_eq!(all_three(&g), (2, 2, 2));
}

#[test]
fn from_map_pads_missing_and_short_lines() {
    let rows: Vec<&[u8]> = vec![b"..#", b"."];
    let g = Grid::from_map(3, 3, &rows);
    assert_eq!(g.n, 3);
    assert_eq!(g.m, 3);
    assert_eq!(g.floor, vec![true, true, false, true, false, false, false, false, false]);
    assert_eq!(dfs::count_rooms(&g), 1);
    let long: Vec<&[u8]> = vec![b".#.#."];
    let h = Grid::from_map(1, 3, &long);
    assert_eq!(h.floor, vec![true, false, true]);
    assert_eq!(bfs::count_rooms(&h), 2);
}
