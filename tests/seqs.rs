use std::collections::HashMap;

use pj_euler::collatz::{collatz_length, Overflow};
use pj_euler::seqs::{Collatz, Triangle};

#[test]
fn triangle_numbers_begin() {
    let mut t = Triangle::new();
    assert_eq!(t.next(), Some(0));
    assert_eq!(t.next(), Some(1));
    assert_eq!(t.next(), Some(3));
    assert_eq!(t.next(), Some(6));
    assert_eq!(t.next(), Some(10));
}

#[test]
fn triangle_skip_from_fresh() {
    assert_eq!(Triangle::new().skip(0), Some(0));
    assert_eq!(Triangle::new().skip(1000), Some(500_500));
}

#[test]
fn triangle_skip_then_next() {
    let mut t = Triangle::new();
    assert_eq!(t.skip(100_000_000), Some(5_000_000_050_000_000));
    assert_eq!(t.next(), Some(5_000_000_050_000_000 + 100_000_001));
}

#[test]
fn triangle_skip_is_relative() {
    let mut t = Triangle::new();
    assert_eq!(t.next(), Some(0));
    assert_eq!(t.next(), Some(1));
    assert_eq!(t.skip(2), Some(10));
    assert_eq!(t.next(), Some(15));
}

#[test]
fn triangle_overflow_ends_the_sequence() {
    let mut t = Triangle::new();
    // triangle(6_074_000_999) fits in a u64, triangle(6_074_001_000) does not.
    assert_eq!(t.skip(6_074_000_999), Some(18_446_744_070_963_499_500));
    assert_eq!(t.next(), None);
    assert_eq!(Triangle::new().skip(6_074_001_000), None);
}

#[test]
fn collatz_of_six_cut_off() {
    let mut c = Collatz::of(6).cut_off();
    let mut seen = Vec::new();
    while let Some(v) = c.next() {
        seen.push(v);
    }
    assert_eq!(seen, vec![6, 3, 10, 5, 16, 8, 4, 2, 1]);
}

#[test]
fn collatz_of_four_cut_off() {
    let mut c = Collatz::of(4).cut_off();
    assert_eq!(c.next(), Some(4));
    assert_eq!(c.next(), Some(2));
    assert_eq!(c.next(), Some(1));
    assert_eq!(c.next(), None);
}

#[test]
fn collatz_of_four_loops() {
    let mut c = Collatz::of(4);
    for _ in 0..3 {
        assert_eq!(c.next(), Some(4));
        assert_eq!(c.next(), Some(2));
        assert_eq!(c.next(), Some(1));
    }
}

#[test]
fn collatz_step_overflow() {
    let mut c = Collatz::of(u64::MAX);
    assert_eq!(c.next(), None);
    let mut c = Collatz::of(u64::MAX - 1);
    assert_eq!(c.next(), Some(u64::MAX - 1));
}

#[test]
fn collatz_length_of_seventeen() {
    assert_eq!(collatz_length(17, &mut HashMap::new()), Ok(13));
    assert_eq!(collatz_length(1, &mut HashMap::new()), Ok(1));
    assert_eq!(collatz_length(6, &mut HashMap::new()), Ok(9));
}

#[test]
fn collatz_length_twice_with_one_cache() {
    let mut lengths = HashMap::new();
    let first = collatz_length(17, &mut lengths);
    assert_eq!(lengths.get(&17), Some(&13));
    assert_eq!(lengths.get(&52), None);
    assert_eq!(lengths.get(&26), Some(&11));
    let size = lengths.len();
    let second = collatz_length(17, &mut lengths);
    assert_eq!(first, second);
    assert_eq!(lengths.len(), size);
}

#[test]
fn collatz_length_matches_cut_off_count() {
    let mut lengths = HashMap::new();
    for n in 1..3000u64 {
        let mut c = Collatz::of(n).cut_off();
        let mut count = 0usize;
        while c.next().is_some() {
            count += 1;
        }
        assert_eq!(collatz_length(n, &mut lengths), Ok(count), "n = {}", n);
    }
}

#[test]
fn collatz_length_overflow() {
    assert_eq!(collatz_length(u64::MAX, &mut HashMap::new()), Err(Overflow));
}
