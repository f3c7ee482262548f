use pj_euler::diagnostic::{bit_of, life_support, most_common_bit, rating};

const REPORT: [u32; 12] = [
    0b00100, 0b11110, 0b10110, 0b10111, 0b10101, 0b01111, 0b00111, 0b11100, 0b10000, 0b11001,
    0b00010, 0b01010,
];

#[test]
fn bits() {
    assert_eq!(bit_of(0b100, 2), 1);
    assert_eq!(bit_of(0b100, 1), 0);
    assert_eq!(bit_of(u32::MAX, 31), 1);
}

#[test]
fn most_common_bits() {
    assert_eq!(most_common_bit(&REPORT, 4), 1);
    assert_eq!(most_common_bit(&REPORT, 0), 0);
    assert_eq!(most_common_bit(&[0b1, 0b0], 0), 1);
    assert_eq!(most_common_bit(&[], 0), 1);
}

#[test]
fn ratings() {
    assert_eq!(rating(&REPORT, 5, true), Some(0b10111));
    assert_eq!(rating(&REPORT, 5, false), Some(0b01010));
    assert_eq!(life_support(&REPORT, 5), Some(230));
}

#[test]
fn rating_that_runs_dry() {
    assert_eq!(rating(&[0b1], 1, false), None);
    assert_eq!(rating(&[0b1], 1, true), Some(1));
    assert_eq!(life_support(&[0b1], 1), None);
    assert_eq!(rating(&[], 3, true), None);
}
