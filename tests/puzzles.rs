use pj_euler::aoc::{Line, LineError, Position, Step, StepError};
use pj_euler::euler::{
    first_triangle_with_divisors, is_palindrome, largest_palindrome_product, largest_prime_factor,
    longest_collatz_below, nth_prime, sum_primes_below,
};

#[test]
fn step_parser_works() {
    assert_eq!(Step::parse("up 2".as_bytes()), Ok(Step::Up(2)));
}

#[test]
fn step_parser_errors() {
    assert_eq!(Step::parse("forward 5".as_bytes()), Ok(Step::Forward(5)));
    assert_eq!(Step::parse("down 8".as_bytes()), Ok(Step::Down(8)));
    assert_eq!(Step::parse("up2".as_bytes()), Err(StepError::StepParse));
    assert_eq!(Step::parse("left 2".as_bytes()), Err(StepError::InvalidDirection));
    assert_eq!(Step::parse("up x".as_bytes()), Err(StepError::NotAnInt));
    assert_eq!(Step::parse("up 4294967296".as_bytes()), Err(StepError::NotAnInt));
    assert_eq!(Step::parse("up ".as_bytes()), Err(StepError::NotAnInt));
}

#[test]
fn dive_example() {
    let steps = ["forward 5", "down 5", "forward 8", "up 3", "down 8", "forward 2"];
    let mut p = Position::new();
    for s in steps {
        p = p.apply(Step::parse(s.as_bytes()).unwrap());
    }
    assert_eq!(p.product(), 900);
}

#[test]
fn is_diagonal() {
    assert!(Line { start: (1, 3), end: (4, 6) }.is_diagonal());
    assert!(!Line { start: (4, 3), end: (4, 6) }.is_diagonal());
}

#[test]
fn covers() {
    assert_eq!(
        Line { start: (0, 8), end: (8, 0) }.covers(),
        vec![(0, 8), (1, 7), (2, 6), (3, 5), (4, 4), (5, 3), (6, 2), (7, 1), (8, 0)]
    );
}

#[test]
fn parse_line() -> Result<(), LineError> {
    assert_eq!(
        Line::parse("3,4 -> 5,6".as_bytes())?,
        Line { start: (3, 4), end: (5, 6) }
    );
    Ok(())
}

#[test]
fn parse_line_orders_ends_and_fails() {
    assert_eq!(
        Line::parse("9,4 -> 3,4".as_bytes()),
        Ok(Line { start: (3, 4), end: (9, 4) })
    );
    assert_eq!(Line::parse("9,4 3,4".as_bytes()), Err(LineError::MissingArrow));
    assert_eq!(Line::parse("94 -> 3,4".as_bytes()), Err(LineError::MissingComma));
    assert_eq!(Line::parse("9,4 -> 34".as_bytes()), Err(LineError::MissingComma));
    assert_eq!(Line::parse("9,a -> 3,4".as_bytes()), Err(LineError::NotAnInt));
}

#[test]
fn line_covers() {
    assert_eq!(
        Line { start: (1, 2), end: (4, 2) }.covers(),
        vec![(1, 2), (2, 2), (3, 2), (4, 2)]
    );
}

#[test]
fn line_covers_vertical_and_other() {
    assert_eq!(
        Line { start: (2, 5), end: (2, 3) }.covers(),
        vec![(2, 3), (2, 4), (2, 5)]
    );
    assert_eq!(Line { start: (0, 0), end: (2, 2) }.covers(), vec![(0, 0), (1, 1), (2, 2)]);
    assert!(Line { start: (0, 0), end: (3, 1) }.covers().is_empty());
    let mut l = Line { start: (5, 0), end: (1, 0) };
    l.normalize();
    assert_eq!(l, Line { start: (1, 0), end: (5, 0) });
}

#[test]
fn is_palindrime_twelve() {
    assert!(!is_palindrome(12));
}

#[test]
fn is_palindrime_large() {
    assert!(is_palindrome(100_343_001));
}

#[test]
fn palindromes_at_the_edges() {
    assert!(is_palindrome(0));
    assert!(is_palindrome(7));
    assert!(is_palindrome(4_294_884_924));
    assert!(!is_palindrome(u32::MAX));
}

#[test]
fn largest_palindrome_products() {
    assert_eq!(largest_palindrome_product(100), Some(9009));
    assert_eq!(largest_palindrome_product(1000), Some(906_609));
    assert_eq!(largest_palindrome_product(11), None);
}

#[test]
fn largest_prime_factors() {
    assert_eq!(largest_prime_factor(13195), 29);
    assert_eq!(largest_prime_factor(600_851_475_143), 6857);
}

#[test]
fn nth_primes() {
    assert_eq!(nth_prime(6), Some(13));
    assert_eq!(nth_prime(10001), Some(104_743));
}

#[test]
fn triangle_with_many_divisors() {
    assert_eq!(first_triangle_with_divisors(5), Some(28));
    assert_eq!(first_triangle_with_divisors(500), Some(76_576_500));
}

#[test]
fn prime_sums() {
    assert_eq!(sum_primes_below(10), Some(17));
    assert_eq!(sum_primes_below(2), Some(0));
    assert_eq!(sum_primes_below(3), Some(2));
    assert_eq!(sum_primes_below(2_000_000), Some(142_913_828_922));
}

#[test]
fn longest_collatz_small() {
    assert_eq!(longest_collatz_below(10), Ok(9));
}

#[test]
fn longest_collatz_below_a_million() {
    assert_eq!(longest_collatz_below(1_000_000), Ok(837_799));
}

#[test]
fn lattice_paths_through_grids() {
    assert_eq!(pj_euler::euler::lattice_paths(2), 6);
    assert_eq!(pj_euler::euler::lattice_paths(20), 137_846_528_820);
    assert_eq!(pj_euler::euler::lattice_paths(0), 1);
}

#[test]
fn sums_of_multiples() {
    assert_eq!(pj_euler::sums::sum_of_multiples_below(10), 23);
    assert_eq!(pj_euler::sums::sum_of_multiples_below(0), 0);
    assert_eq!(pj_euler::divide_three_five::solve(), 233_168);
}

#[test]
fn even_fibonacci_sums() {
    assert_eq!(pj_euler::sums::even_fibonacci_sum(100), 44);
    assert_eq!(pj_euler::sums::even_fibonacci_sum(2), 0);
    assert_eq!(pj_euler::sums::even_fibonacci_sum(3), 2);
    assert_eq!(pj_euler::fib_even::solve(), 4_613_732);
}

#[test]
fn dive_steps() {
    let steps: Vec<Step> = ["forward 5", "down 5", "forward 8", "up 3", "down 8", "forward 2"]
        .iter()
        .map(|s| Step::parse(s.as_bytes()).unwrap())
        .collect();
    assert_eq!(pj_euler::aoc::dive(&steps), Some(900));
    assert_eq!(pj_euler::aoc::dive(&[Step::Up(1)]), None);
    assert_eq!(pj_euler::aoc::dive(&[]), Some(0));
    assert!(!Position::new().fits(Step::Up(1)));
    assert!(Position::new().fits(Step::Down(u32::MAX)));
}

#[test]
fn sum_square_differences() {
    assert_eq!(pj_euler::sums::sum_square_difference(10), 2640);
    assert_eq!(pj_euler::sums::sum_square_difference(100), 25_164_150);
    assert_eq!(pj_euler::sums::sum_square_difference(0), 0);
    assert_eq!(pj_euler::sums::sum_square_difference(1), 0);
}

#[test]
fn pythagorean_triplets() {
    assert_eq!(pj_euler::sums::pythagorean_triplet_product(12), Some(60));
    assert_eq!(pj_euler::sums::pythagorean_triplet_product(1000), Some(31_875_000));
    assert_eq!(pj_euler::sums::pythagorean_triplet_product(60), Some(10 * 24 * 26));
    assert_eq!(pj_euler::sums::pythagorean_triplet_product(10), None);
}

#[test]
fn sonar_window_increases() {
    let depths = [199, 200, 208, 210, 200, 207, 240, 269, 260, 263];
    assert_eq!(pj_euler::aoc::count_window_increases(&depths), 5);
    assert_eq!(pj_euler::aoc::count_window_increases(&[1, 2, 3]), 0);
    assert_eq!(pj_euler::aoc::count_window_increases(&[1, 2, 3, 4]), 1);
    assert_eq!(pj_euler::aoc::count_window_increases(&[u64::MAX, u64::MAX, u64::MAX, 0]), 0);
}

#[test]
fn lanternfish_growth() {
    let timers = [3, 4, 3, 1, 2];
    assert_eq!(pj_euler::aoc::lanternfish_after(&timers, 18), Some(26));
    assert_eq!(pj_euler::aoc::lanternfish_after(&timers, 80), Some(5934));
    assert_eq!(pj_euler::aoc::lanternfish_after(&timers, 256), Some(26_984_457_539));
    assert_eq!(pj_euler::aoc::lanternfish_after(&timers, 0), Some(5));
    assert_eq!(pj_euler::aoc::lanternfish_after(&[], 10), Some(0));
    assert_eq!(pj_euler::aoc::lanternfish_after(&timers, 2000), None);
}

#[test]
fn lanternfish_school_day() {
    let mut school = pj_euler::aoc::LanternfishSchool::new(&[0, 8]);
    assert_eq!(school.sum(), Some(2));
    assert!(school.update());
    assert_eq!(school.sum(), Some(3));
}

#[test]
fn crab_alignment() {
    let positions = [16, 1, 2, 0, 4, 2, 7, 1, 2, 14];
    assert_eq!(pj_euler::aoc::cheapest_alignment(&positions), Some(168));
    assert_eq!(pj_euler::aoc::alignment_cost(&positions, 5), Some(168));
    assert_eq!(pj_euler::aoc::alignment_cost(&positions, 2), Some(206));
    assert_eq!(pj_euler::aoc::cheapest_alignment(&[]), None);
    assert_eq!(pj_euler::aoc::cheapest_alignment(&[7]), Some(0));
    assert_eq!(
        pj_euler::aoc::alignment_cost(&[0, u32::MAX], 0),
        Some(9_223_372_034_707_292_160)
    );
}

#[test]
fn overlapping_vents() {
    let text = [
        "0,9 -> 5,9", "8,0 -> 0,8", "9,4 -> 3,4", "2,2 -> 2,1", "7,0 -> 7,4", "6,4 -> 2,0",
        "0,9 -> 2,9", "3,4 -> 1,4", "0,0 -> 8,8", "5,5 -> 8,2",
    ];
    let lines: Vec<Line> = text.iter().map(|l| Line::parse(l.as_bytes()).unwrap()).collect();
    assert_eq!(pj_euler::aoc::count_overlaps(&lines), 12);
    assert_eq!(pj_euler::aoc::count_overlaps(&lines[..1]), 0);
    assert_eq!(pj_euler::aoc::count_overlaps(&[]), 0);
}
