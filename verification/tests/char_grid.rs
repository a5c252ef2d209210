//! Tests for room counting on a grid of characters: both flood fills and
//! both counters.

use lib::counting_rooms::char_grid::{
    count_rooms_iterative, count_rooms_recursive, flood_fill_iterative, flood_fill_recursive,
};
use lib::counting_rooms::{dfs, Grid};

fn rows(lines: &[&str]) -> Vec<Vec<char>> {
    lines.iter().map(|l| l.chars().collect()).collect()
}

fn example() -> Vec<Vec<char>> {
    rows(&["########", "#..#...#", "####.#.#", "#..#...#", "########"])
}

#[test]
fn char_counters_match_example() {
    let mut a = example();
    assert_eq!(count_rooms_iterative(&mut a, 5, 8), 3);
    assert!(a.iter().all(|r| r.iter().all(|&ch| ch == '#')));
    let mut b = example();
    assert_eq!(count_rooms_recursive(&mut b, 5, 8), 3);
    assert_eq!(a, b);
}

#[test]
fn flood_fills_wall_one_room_only() {
    // The room of row 1, column 4 is the right-hand room.
    let want = rows(&["########", "#..#####", "########", "#..#####", "########"]);
    let mut a = example();
    flood_fill_iterative(&mut a, 1, 4, 5, 8);
    assert_eq!(a, want);
    let mut b = example();
    flood_fill_recursive(&mut b, 1, 4, 5, 8);
    assert_eq!(b, want);
}

#[test]
fn flood_from_a_wall_spreads_to_its_floor_neighbours() {
    // The start is walled in any case, and the floor connected to it
    // through its floor neighbours is flooded.
    let mut a = rows(&[".#.", "x..", "#.#"]);
    flood_fill_iterative(&mut a, 1, 0, 3, 3);
    assert_eq!(a, rows(&["###", "###", "###"]));
    let mut b = rows(&[".#.", "x..", "#.#"]);
    flood_fill_recursive(&mut b, 1, 0, 3, 3);
    assert_eq!(a, b);
    let mut c = rows(&[".#.", "x..", "#.#"]);
    flood_fill_iterative(&mut c, 1, 1, 3, 3);
    assert_eq!(c, rows(&[".##", "x##", "###"]));
    let mut d = rows(&[".#.", "x..", "#.#"]);
    flood_fill_recursive(&mut d, 1, 1, 3, 3);
    assert_eq!(c, d);
}

#[test]
fn longer_rows_and_extra_rows_are_left_alone() {
    let mut g = rows(&["..#..", ".##..", "....."]);
    // Only the first two rows and three columns are the map.
    assert_eq!(count_rooms_iterative(&mut g, 2, 3), 1);
    assert_eq!(g, rows(&["###..", "###..", "....."]));
    let mut h = rows(&["..#..", ".##..", "....."]);
    assert_eq!(count_rooms_recursive(&mut h, 2, 3), 1);
    assert_eq!(g, h);
}

#[test]
fn char_counters_agree_with_mask_counter() {
    let mut seed: u64 = 7;
    for n in 1..8usize {
        for m in 1..8usize {
            let mut grid = Vec::new();
            for _ in 0..n {
                let mut row = Vec::new();
                for _ in 0..m {
                    seed = seed.wrapping_mul(6364136223846793005).wrapping_add(1);
                    row.push(if (seed >> 33) % 100 < 55 { '.' } else { '#' });
                }
                grid.push(row);
            }
            let floor: Vec<bool> = grid.iter().flat_map(|r| r.iter().map(|&ch| ch == '.')).collect();
            let want = dfs::count_rooms(&Grid::new(n, m, floor));
            let mut a = grid.clone();
            assert_eq!(count_rooms_iterative(&mut a, n, m), want);
            let mut b = grid.clone();
            assert_eq!(count_rooms_recursive(&mut b, n, m), want);
        }
    }
}

#[test]
fn empty_map_has_no_rooms() {
    let mut g: Vec<Vec<char>> = Vec::new();
    assert_eq!(count_rooms_iterative(&mut g, 0, 0), 0);
    let mut h = rows(&["", ""]);
    assert_eq!(count_rooms_recursive(&mut h, 2, 0), 0);
}
