//! Tests for "Subordinates": both traversals on the statement's example and
//! on shapes whose counts are known.

use lib::subordinates::{build_tree, iterative, recursive};

#[test]
fn iterative_matches_example() {
    let counts = iterative::count_subordinates(5, &[1, 1, 2, 3]);
    assert_eq!(&counts[1..=5], &[4, 1, 1, 0, 0]);
}

#[test]
fn recursive_matches_example() {
    let counts = recursive::count_subordinates(5, &[1, 1, 2, 3]);
    assert_eq!(&counts[1..=5], &[4, 1, 1, 0, 0]);
}

#[test]
fn chain_and_star() {
    let n = 2000;
    let chain: Vec<u32> = (1..n as u32).collect();
    let want: Vec<u32> = (0..=n as u32).map(|v| if v == 0 { 0 } else { n as u32 - v }).collect();
    assert_eq!(iterative::count_subordinates(n, &chain), want);
    assert_eq!(recursive::count_subordinates(n, &chain), want);
    let star: Vec<u32> = vec![1; n - 1];
    let counts = iterative::count_subordinates(n, &star);
    assert_eq!(counts[1], n as u32 - 1);
    assert!(counts[2..].iter().all(|&c| c == 0));
    assert_eq!(recursive::count_subordinates(n, &star), counts);
}

#[test]
fn single_employee_and_tree_shape() {
    assert_eq!(iterative::count_subordinates(1, &[]), vec![0, 0]);
    assert_eq!(recursive::count_subordinates(1, &[]), vec![0, 0]);
    let (parent, children) = build_tree(5, &[1, 1, 2, 3]);
    assert_eq!(parent, vec![0, 0, 1, 1, 2, 3]);
    assert_eq!(children[1], vec![2, 3]);
    assert_eq!(children[2], vec![4]);
    assert_eq!(children[3], vec![5]);
    assert!(children[4].is_empty());
}
