//! Tests for Tower of Hanoi, "Increasing Array" and decimal output.

use lib::hanoi::{iterative_moves, recursive_moves};
use lib::increasing_array::{min_moves, min_moves_prefix_max, min_moves_running_max, solve};
use lib::decimal::push_u32;
use lib::increasing_array::min_moves_fits;

#[test]
fn lib_matches_example() {
    assert_eq!(recursive_moves(2), vec![(1, 2), (1, 3), (2, 3)]);
    assert_eq!(iterative_moves(2), vec![(1, 2), (1, 3), (2, 3)]);
}

#[test]
fn both_agree_and_count_is_optimal() {
    for n in 1..=16 {
        let r = recursive_moves(n);
        let i = iterative_moves(n);
        assert_eq!(r, i, "algorithms disagree at n={n}");
        assert_eq!(r.len() as u64, (1u64 << n) - 1, "wrong move count at n={n}");
    }
}

#[test]
fn moves_are_legal() {
    for n in 1..=14 {
        for moves in [recursive_moves(n), iterative_moves(n)] {
            let mut pegs: [Vec<u32>; 3] = [Vec::new(), Vec::new(), Vec::new()];
            for d in (1..=n).rev() {
                pegs[0].push(d);
            }
            for (from, to) in moves {
                let disk = pegs[(from - 1) as usize].pop().expect("source empty");
                if let Some(&top) = pegs[(to - 1) as usize].last() {
                    assert!(disk < top, "placed {disk} on {top} at n={n}");
                }
                pegs[(to - 1) as usize].push(disk);
            }
            assert_eq!(pegs[2], (1..=n).rev().collect::<Vec<_>>());
        }
    }
}

#[test]
fn zero_disks_need_no_moves() {
    assert_eq!(recursive_moves(0), Vec::new());
    assert_eq!(iterative_moves(0), Vec::new());
    assert_eq!(recursive_moves(1), vec![(1, 3)]);
    assert_eq!(iterative_moves(3), vec![(1, 3), (1, 2), (3, 2), (1, 3), (2, 1), (2, 3), (1, 3)]);
}

#[test]
fn increasing_array_example() {
    let a = vec![3i64, 2, 5, 1, 7];
    assert_eq!(min_moves_running_max(&a), 5);
    assert_eq!(min_moves_prefix_max(&a), 5);
    let mut b = a.clone();
    assert_eq!(min_moves(&mut b), 5);
    assert_eq!(b, vec![3, 3, 5, 5, 7]);
    let mut c = a.clone();
    assert_eq!(solve(&mut c, 4), 5);
    assert_eq!(c, vec![3, 3, 5, 5, 7]);
}

#[test]
fn increasing_array_edges() {
    assert_eq!(min_moves_prefix_max(&[]), 0);
    let mut e: Vec<i64> = Vec::new();
    assert_eq!(min_moves(&mut e), 0);
    assert_eq!(min_moves_running_max(&[7]), 0);
    let big: Vec<i64> = (0..200_000).map(|i| if i == 0 { 1_000_000_000 } else { 1 }).collect();
    assert_eq!(min_moves_running_max(&big), 999_999_999 * 199_999);
    assert_eq!(min_moves_prefix_max(&big), 999_999_999 * 199_999);
    let sorted: Vec<i64> = (1..=10).collect();
    assert_eq!(min_moves_running_max(&sorted), 0);
}

#[test]
fn decimal_digits() {
    let mut out = b"x=".to_vec();
    push_u32(&mut out, 0);
    out.push(b' ');
    push_u32(&mut out, 4_294_967_295);
    out.push(b' ');
    push_u32(&mut out, 1020);
    assert_eq!(out, b"x=0 4294967295 1020".to_vec());
}

#[test]
fn overflow_check_for_move_counts() {
    assert!(min_moves_fits(&[]));
    assert!(min_moves_fits(&[i64::MIN]));
    assert!(min_moves_fits(&[3, 2, 5, 1, 7]));
    assert!(min_moves_fits(&[i64::MAX, 0]));
    assert!(!min_moves_fits(&[i64::MAX, -1]));
    assert!(!min_moves_fits(&[i64::MAX, i64::MIN]));
    assert!(!min_moves_fits(&[i64::MAX / 2 + 1, 0, 0]));
    assert!(min_moves_fits(&[i64::MAX / 2, 0, 0]));
}

#[test]
fn no_shorter_or_other_optimal_sequence() {
    // Breadth-first search over all positions: a position gives the peg of
    // each disk. Count the shortest ways from "all on peg 1" to "all on peg 3".
    for n in 1..=6u32 {
        let states = 3usize.pow(n);
        let peg_of = |s: usize, d: u32| (s / 3usize.pow(d)) % 3;
        let target = states - 1; // every disk on peg index 2
        let mut dist = vec![usize::MAX; states];
        let mut ways = vec![0u64; states];
        let mut queue = std::collections::VecDeque::new();
        dist[0] = 0;
        ways[0] = 1;
        queue.push_back(0usize);
        while let Some(s) = queue.pop_front() {
            for from in 0..3 {
                // The top disk of a peg is its smallest disk.
                let top = (0..n).find(|&d| peg_of(s, d) == from);
                let Some(d) = top else { continue };
                for to in 0..3 {
                    if to == from {
                        continue;
                    }
                    if let Some(e) = (0..n).find(|&e| peg_of(s, e) == to) {
                        if e < d {
                            continue;
                        }
                    }
                    let next = s - from * 3usize.pow(d) + to * 3usize.pow(d);
                    if dist[next] == usize::MAX {
                        dist[next] = dist[s] + 1;
                        queue.push_back(next);
                    }
                    if dist[next] == dist[s] + 1 {
                        ways[next] += ways[s];
                    }
                }
            }
        }
        assert_eq!(dist[target] as u64, (1u64 << n) - 1, "shortest length at n={n}");
        assert_eq!(ways[target], 1, "number of optimal sequences at n={n}");
        assert_eq!(recursive_moves(n).len(), dist[target]);
    }
}
