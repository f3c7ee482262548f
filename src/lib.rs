//! Lazy number-theory sequences: primes, prime factorizations, triangular
//! numbers and Collatz chains, with a memoized Collatz length; and the small
//! puzzles built on them or beside them.

pub mod arith;
pub mod primes;
pub mod factorization;
pub mod seqs;
pub mod collatz;

pub mod decimal;
pub mod sorting;

pub mod euler;
pub mod sums;
pub mod grid;
pub mod divide_three_five;
pub mod fib_even;

pub mod aoc;
pub mod diagnostic;
pub mod bingo;
pub mod segments;
pub mod basins;
pub mod chunks;
