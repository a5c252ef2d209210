//! Tests for "Finding Borders": both algorithms against the definition.

use lib::finding_borders::{kmp, zalgo};

fn reference(s: &[u8]) -> Vec<u32> {
    let n = s.len();
    let mut v = Vec::new();
    for l in 1..n {
        if s[..l] == s[n - l..] {
            v.push(l as u32);
        }
    }
    v
}

struct Lcg(u64);
impl Lcg {
    fn next(&mut self, modulo: u32) -> u32 {
        self.0 = self.0.wrapping_mul(6364136223846793005).wrapping_add(1);
        ((self.0 >> 33) as u32) % modulo
    }
}

#[test]
fn kmp_matches_example() {
    assert_eq!(kmp::border_lengths(b"abcababcab"), vec![2, 5]);
}

#[test]
fn zalgo_matches_example() {
    assert_eq!(zalgo::border_lengths(b"abcababcab"), vec![2, 5]);
}

#[test]
fn edge_cases() {
    assert_eq!(kmp::border_lengths(b"a"), Vec::<u32>::new());
    assert_eq!(zalgo::border_lengths(b"a"), Vec::<u32>::new());
    assert_eq!(kmp::border_lengths(b"aa"), vec![1]);
    assert_eq!(zalgo::border_lengths(b"aa"), vec![1]);
    assert_eq!(kmp::border_lengths(b"ab"), Vec::<u32>::new());
    assert_eq!(zalgo::border_lengths(b"ab"), Vec::<u32>::new());
}

#[test]
fn random_small_match_reference() {
    let mut rng = Lcg(0x51ed_270b_3e7a_1144);
    for _ in 0..400 {
        let n = 1 + rng.next(40) as usize;
        let s: Vec<u8> = (0..n).map(|_| b'a' + rng.next(3) as u8).collect();
        let want = reference(&s);
        assert_eq!(kmp::border_lengths(&s), want, "kmp on {:?}", String::from_utf8_lossy(&s));
        assert_eq!(zalgo::border_lengths(&s), want, "zalgo on {:?}", String::from_utf8_lossy(&s));
    }
}

#[test]
fn all_equal_worst_case() {
    let n = 1_000_000;
    let s = vec![b'a'; n];
    let expected: Vec<u32> = (1..n as u32).collect();
    assert_eq!(kmp::border_lengths(&s), expected);
    assert_eq!(zalgo::border_lengths(&s), expected);
}

#[test]
fn large_random_algorithms_agree() {
    let mut rng = Lcg(0x9e37_79b9_7f4a_7c15);
    for &alpha in &[2u32, 4, 26] {
        let n = 1_000_000;
        let s: Vec<u8> = (0..n).map(|_| b'a' + rng.next(alpha) as u8).collect();
        assert_eq!(
            kmp::border_lengths(&s),
            zalgo::border_lengths(&s),
            "disagreement at alphabet size {alpha}"
        );
    }
}

#[test]
fn nested_borders() {
    let s = b"aabaaaabaaaab";
    let want = reference(s);
    assert_eq!(kmp::border_lengths(s), want);
    assert_eq!(zalgo::border_lengths(s), want);
}

#[test]
fn empty_string_has_no_borders() {
    assert_eq!(kmp::border_lengths(b""), Vec::<u32>::new());
    assert_eq!(zalgo::border_lengths(b""), Vec::<u32>::new());
    assert_eq!(kmp::prefix_function(b""), Vec::<u32>::new());
    assert_eq!(zalgo::z_array(b""), Vec::<u32>::new());
}

#[test]
fn prefix_function_and_z_array_values() {
    assert_eq!(kmp::prefix_function(b"abcababcab"), vec![0, 0, 0, 1, 2, 1, 2, 3, 4, 5]);
    assert_eq!(kmp::prefix_function(b"aaaa"), vec![0, 1, 2, 3]);
    assert_eq!(zalgo::z_array(b"abcababcab"), vec![0, 0, 0, 2, 0, 5, 0, 0, 2, 0]);
    assert_eq!(zalgo::z_array(b"aaaa"), vec![0, 3, 2, 1]);
}
