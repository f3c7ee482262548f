//! Puzzle solutions that drive the sequences to an answer.

use std::collections::HashMap;
use vstd::prelude::*;
use crate::collatz::{
    collatz_length, fits_along, is_collatz_length, lemma_length_unique, lengths_known, Overflow,
};
use crate::factorization::{has_divisor_count, is_factorization, number_of_divisors, prime_factors};
use crate::arith::power;
use crate::primes::{no_prime_between, prime, prime_prefix, Primes};
use crate::seqs::{triangle, Triangle};

verus! {

/// The largest prime factor of `n`: the last term of its factorization.
pub fn largest_prime_factor(n: u64) -> (r: u64)
    requires
        n >= 2,
    ensures
        exists|s| is_factorization(s, n as nat) && s.len() > 0 && r == s.last().factor,
{
    let fs = prime_factors(n);
    if fs.len() == 0 {
        assert(crate::factorization::factor_product(fs@) == 1);
        return 0;
    }
    let r = fs[fs.len() - 1].factor;
    assert(is_factorization(fs@, n as nat) && fs@.len() > 0 && r == fs@.last().factor);
    r
}

/// The `n`-th prime, counting 2 as the first; `None` where it does not fit
/// in a `u64`.
pub fn nth_prime(n: usize) -> (r: Option<u64>)
    requires
        n >= 1,
    ensures
        match r {
            Some(p) => exists|s: Seq<u64>| prime_prefix(s) && s.len() == n && s.last() == p,
            None => exists|s: Seq<u64>|
                {
                    &&& prime_prefix(s)
                    &&& 0 < s.len() < n
                    &&& forall|q: nat| s.last() < q <= u64::MAX ==> !#[trigger] prime(q)
                },
        },
{
    let mut primes = Primes::new();
    let r = primes.nth(n - 1);
    match r {
        Some(p) => {
            assert(prime_prefix(primes@) && primes@.len() == n && primes@.last() == p);
            Some(p)
        },
        None => {
            assert(prime_prefix(primes@) && 0 < primes@.len() < n);
            None
        },
    }
}

/// `n` has at most `d` divisors.
pub open spec fn at_most_divisors(n: nat, d: nat) -> bool {
    exists|c: nat| has_divisor_count(n, c) && c <= d
}

/// The first triangular number with more than `divisors` divisors; `None`
/// where no triangular number that fits in a `u64` has that many.
pub fn first_triangle_with_divisors(divisors: u64) -> (r: Option<u64>)
    requires
        divisors >= 1,
    ensures
        match r {
            Some(t) => exists|k: nat| {
                &&& t == triangle(k)
                &&& exists|c: nat| has_divisor_count(t as nat, c) && c > divisors
                &&& forall|i: nat| 1 <= i < k ==> #[trigger] at_most_divisors(
                    triangle(i),
                    divisors as nat,
                )
            },
            None => forall|i: nat|
                1 <= i && triangle(i) <= u64::MAX ==> #[trigger] at_most_divisors(
                    triangle(i),
                    divisors as nat,
                ),
        },
{
    let mut seq = Triangle::new();
    // The first triangular number, 0, has no factorization to count.
    let first = seq.next();
    assert(first == Some(0u64)) by {
        assert(triangle(0) == 0);
    }
    loop
        invariant
            seq.wf(),
            seq.count() >= 1,
            divisors >= 1,
            forall|i: nat| 1 <= i < seq.count() ==> #[trigger] at_most_divisors(
                triangle(i),
                divisors as nat,
            ),
        decreases u64::MAX - seq.count(),
    {
        let ghost k = seq.count();
        let next = seq.next();
        match next {
            Some(t) => {
                assert(t >= 1) by (nonlinear_arith)
                    requires
                        t == k * (k + 1) / 2,
                        k >= 1,
                ;
                let c = number_of_divisors(t);
                if c > divisors {
                    assert(t == triangle(k) && has_divisor_count(t as nat, c as nat));
                    return Some(t);
                }
                assert forall|i: nat| 1 <= i < seq.count() implies #[trigger] at_most_divisors(
                    triangle(i),
                    divisors as nat,
                ) by {
                    if i == k {
                        assert(has_divisor_count(triangle(i), c as nat));
                    }
                }
            },
            None => {
                proof {
                    assert forall|i: nat| 1 <= i && triangle(i) <= u64::MAX implies #[trigger]
                        at_most_divisors(triangle(i), divisors as nat) by {
                        if i >= k {
                            crate::seqs::lemma_triangle_grows(k, i);
                        }
                    }
                }
                return None;
            },
        }
    }
}

/// The chain from `n` reaches 1, and can be followed in machine integers.
pub open spec fn chain_computable(n: nat) -> bool {
    exists|l: nat| is_collatz_length(n, l) && fits_along(n, l) && l < usize::MAX
}

/// The start value in `[bound / 2, bound)` with the longest Collatz chain,
/// the last one of several of that length. The lengths are shared through
/// one memo over the whole scan.
pub fn longest_collatz_below(bound: u64) -> (r: Result<u64, Overflow>)
    requires
        bound >= 2,
    ensures
        match r {
            Ok(m) => {
                &&& bound / 2 <= m < bound
                &&& exists|lm: nat| {
                    &&& is_collatz_length(m as nat, lm)
                    &&& forall|k: u64, l: nat|
                        bound / 2 <= k < bound && #[trigger] is_collatz_length(k as nat, l) ==> l
                            <= lm && (k > m ==> l < lm)
                }
            },
            Err(_) => exists|k: u64| bound / 2 <= k < bound && !#[trigger] chain_computable(k as nat),
        },
{
    let mut lengths: HashMap<u64, usize> = HashMap::new();
    let lo = bound / 2;
    let mut best: u64 = lo;
    let mut best_len: usize = 0;
    let mut k: u64 = lo;
    while k < bound
        invariant
            bound >= 2,
            lo == bound / 2,
            lo <= k <= bound,
            lengths_known(lengths@),
            k > lo ==> {
                &&& lo <= best < k
                &&& is_collatz_length(best as nat, best_len as nat)
                &&& forall|i: u64, l: nat|
                    lo <= i < k && #[trigger] is_collatz_length(i as nat, l) ==> l <= best_len && (i
                        > best ==> l < best_len)
            },
        decreases bound - k,
    {
        let l = match collatz_length(k, &mut lengths) {
            Ok(l) => l,
            Err(e) => {
                proof {
                    if chain_computable(k as nat) {
                        let l = choose|l: nat|
                            is_collatz_length(k as nat, l) && fits_along(k as nat, l) && l
                                < usize::MAX;
                        assert(is_collatz_length(k as nat, l));
                    }
                }
                return Err(e);
            },
        };
        if k == lo || l >= best_len {
            best = k;
            best_len = l;
        }
        proof {
            assert forall|i: u64, l2: nat|
                lo <= i < k + 1 && #[trigger] is_collatz_length(i as nat, l2) implies l2 <= best_len
                && (i > best ==> l2 < best_len) by {
                if i == k {
                    lemma_length_unique(k as nat, l as nat, l2);
                } else {
                    lemma_length_unique(i as nat, l2, l2);
                }
            }
        }
        k = k + 1;
    }
    let ghost lm = best_len as nat;
    assert(is_collatz_length(best as nat, lm) && forall|i: u64, l: nat|
        bound / 2 <= i < bound && #[trigger] is_collatz_length(i as nat, l) ==> l <= lm && (i
            > best ==> l < lm));
    Ok(best)
}

/// The digits of `n` appended, last first, to those of `acc`.
pub open spec fn reverse_digits(n: nat, acc: nat) -> nat
    decreases n,
{
    if n == 0 {
        acc
    } else {
        reverse_digits(n / 10, acc * 10 + n % 10)
    }
}

/// `n` reads the same forwards and backwards in decimal.
pub open spec fn palindrome(n: nat) -> bool {
    reverse_digits(n, 0) == n
}

/// Whether `n` is a decimal palindrome.
pub fn is_palindrome(n: u32) -> (r: bool)
    ensures
        r == palindrome(n as nat),
{
    let mut m: u32 = n;
    let mut rev: u64 = 0;
    let ghost mut j: nat = 0;
    while m != 0
        invariant
            reverse_digits(m as nat, rev as nat) == reverse_digits(n as nat, 0),
            rev < power(10, j),
            m * power(10, j) <= n,
            power(10, j) >= 1,
        decreases m,
    {
        proof {
            assert(power(10, j) <= n) by (nonlinear_arith)
                requires
                    m * power(10, j) <= n,
                    m >= 1,
                    power(10, j) >= 1,
            ;
            assert(power(10, j + 1) == 10 * power(10, j));
            assert((m / 10) * power(10, j + 1) <= n) by (nonlinear_arith)
                requires
                    m * power(10, j) <= n,
                    power(10, j + 1) == 10 * power(10, j),
                    power(10, j) >= 1,
            ;
        }
        rev = (m % 10) as u64 + rev * 10;
        m = m / 10;
        proof {
            j = j + 1;
        }
    }
    rev == n as u64
}

/// The largest palindrome that is a product `a * b` with `a` a multiple of
/// 11 in `[11, bound)` and `b` in `[1, bound)`; `None` where there is none.
/// Every palindrome with an even number of digits is a multiple of 11.
pub fn largest_palindrome_product(bound: u32) -> (r: Option<u32>)
    requires
        bound <= 65536,
    ensures
        match r {
            Some(p) => {
                &&& palindrome(p as nat)
                &&& exists|a: nat, b: nat|
                    11 <= a < bound && a % 11 == 0 && 1 <= b < bound && p == #[trigger] (a * b)
                &&& forall|a: nat, b: nat|
                    11 <= a < bound && a % 11 == 0 && 1 <= b < bound && palindrome(#[trigger] (a * b))
                        ==> a * b <= p
            },
            None => forall|a: nat, b: nat|
                11 <= a < bound && a % 11 == 0 && 1 <= b < bound ==> !palindrome(#[trigger] (a * b)),
        },
{
    let mut best: Option<u32> = None;
    let mut a: u32 = 11;
    while a < bound
        invariant
            bound <= 65536,
            11 <= a,
            a % 11 == 0,
            match best {
                Some(p) => {
                    &&& palindrome(p as nat)
                    &&& exists|x: nat, y: nat|
                        11 <= x < bound && x % 11 == 0 && 1 <= y < bound && p == #[trigger] (x * y)
                    &&& forall|x: nat, y: nat|
                        11 <= x < a && x % 11 == 0 && 1 <= y < bound && palindrome(#[trigger] (x * y))
                            ==> x * y <= p
                },
                None => forall|x: nat, y: nat|
                    11 <= x < a && x % 11 == 0 && 1 <= y < bound ==> !palindrome(#[trigger] (x * y)),
            },
        decreases bound + 10 - a,
    {
        let mut b: u32 = 1;
        while b < bound
            invariant
                bound <= 65536,
                11 <= a < bound,
                a % 11 == 0,
                1 <= b <= bound,
                match best {
                    Some(p) => {
                        &&& palindrome(p as nat)
                        &&& exists|x: nat, y: nat|
                            11 <= x < bound && x % 11 == 0 && 1 <= y < bound && p == #[trigger] (x
                                * y)
                        &&& forall|x: nat, y: nat|
                            (11 <= x < a && x % 11 == 0 && 1 <= y < bound || x == a && 1 <= y < b)
                                && palindrome(#[trigger] (x * y)) ==> x * y <= p
                    },
                    None => forall|x: nat, y: nat|
                        (11 <= x < a && x % 11 == 0 && 1 <= y < bound || x == a && 1 <= y < b)
                            ==> !palindrome(#[trigger] (x * y)),
                },
            decreases bound - b,
        {
            assert(a * b <= 65535 * 65535) by (nonlinear_arith)
                requires
                    a < 65536,
                    b < 65536,
            ;
            let prod = a * b;
            if is_palindrome(prod) {
                let better = match best {
                    Some(p) => prod > p,
                    None => true,
                };
                if better {
                    assert(11 <= a < bound && a % 11 == 0 && 1 <= b < bound && prod == a as nat
                        * b as nat);
                    best = Some(prod);
                }
            }
            b = b + 1;
        }
        proof {
            match best {
                Some(p) => {
                    assert forall|x: nat, y: nat|
                        11 <= x < a + 11 && x % 11 == 0 && 1 <= y < bound && palindrome(
                            #[trigger] (x * y),
                        ) implies x * y <= p by {
                        if x >= a {
                            assert(x == a);
                        }
                    }
                },
                None => {
                    assert forall|x: nat, y: nat|
                        11 <= x < a + 11 && x % 11 == 0 && 1 <= y < bound implies !palindrome(
                            #[trigger] (x * y),
                        ) by {
                        if x >= a {
                            assert(x == a);
                        }
                    }
                },
            }
        }
        a = a + 11;
    }
    best
}

/// The sum of the primes below `b`.
pub open spec fn prime_sum_below(b: nat) -> nat
    decreases b,
{
    if b == 0 {
        0
    } else {
        prime_sum_below((b - 1) as nat) + if prime((b - 1) as nat) {
            (b - 1) as nat
        } else {
            0
        }
    }
}

/// Over a stretch without primes the sum stays put.
proof fn lemma_prime_sum_flat(a: nat, b: nat)
    requires
        a < b,
        no_prime_between(a, b),
    ensures
        prime_sum_below(b) == prime_sum_below(a + 1),
    decreases b - a,
{
    if b > a + 1 {
        assert(!prime((b - 1) as nat));
        lemma_prime_sum_flat(a, (b - 1) as nat);
    }
}

/// The sum never shrinks as the bound grows.
proof fn lemma_prime_sum_grows(a: nat, b: nat)
    requires
        a <= b,
    ensures
        prime_sum_below(a) <= prime_sum_below(b),
    decreases b - a,
{
    if a < b {
        lemma_prime_sum_grows(a, (b - 1) as nat);
    }
}

/// The sum of the primes below `bound`, taken from the prime generator;
/// `None` where it does not fit in a `u64`.
pub fn sum_primes_below(bound: u64) -> (r: Option<u64>)
    ensures
        match r {
            Some(s) => s == prime_sum_below(bound as nat),
            None => prime_sum_below(bound as nat) > u64::MAX,
        },
{
    let mut primes = Primes::new();
    let mut sum: u64 = 0;
    assert(prime_sum_below(0) == 0);
    loop
        invariant
            primes.wf(),
            primes@.len() == 0 ==> sum == 0,
            primes@.len() > 0 ==> primes@.last() < bound && sum == prime_sum_below(
                (primes@.last() + 1) as nat,
            ),
        decreases u64::MAX - if primes@.len() == 0 {
            0
        } else {
            primes@.last() as int
        },
    {
        let ghost before = primes@;
        match primes.next() {
            Some(p) => {
                proof {
                    if before.len() == 0 {
                        assert(p == 2);
                        assert forall|q: nat| 0 <= q < 2 implies !#[trigger] prime(q) by {}
                        lemma_prime_sum_flat(0, 2);
                        assert(prime_sum_below(1) == 0) by {
                            assert(prime_sum_below(0) == 0);
                            assert(!prime(0));
                        }
                    } else {
                        lemma_prime_sum_flat(before.last() as nat, p as nat);
                    }
                }
                if p >= bound {
                    proof {
                        if before.len() == 0 {
                            if bound > 0 {
                                lemma_prime_sum_flat(0, bound as nat);
                            }
                        } else {
                            lemma_prime_sum_flat(before.last() as nat, bound as nat);
                        }
                    }
                    return Some(sum);
                }
                match sum.checked_add(p) {
                    Some(s) => sum = s,
                    None => {
                        proof {
                            lemma_prime_sum_grows((p + 1) as nat, bound as nat);
                        }
                        return None;
                    },
                }
            },
            None => {
                proof {
                    lemma_prime_sum_flat(before.last() as nat, bound as nat);
                }
                return Some(sum);
            },
        }
    }
}

/// The binomial coefficient: the number of ways to pick `k` of `n` things.
pub open spec fn binomial_coefficient(n: nat, k: nat) -> nat
    decreases n,
{
    if k > n {
        0
    } else if k == 0 || k == n {
        1
    } else {
        binomial_coefficient((n - 1) as nat, (k - 1) as nat) + binomial_coefficient((n - 1) as nat, k)
    }
}

/// Relies on `num::integer::binomial`: the binomial coefficient `n` choose
/// `k` (0 where `k > n`), which its documentation says does not overflow a
/// `u64` for any `k` while `n` is at most 67.
#[verifier::external_body]
fn binomial(n: u64, k: u64) -> (r: u64)
    requires
        n <= 67,
    ensures
        r == binomial_coefficient(n as nat, k as nat),
{
    num::integer::binomial(n, k)
}

/// The number of paths from one corner of an `n` by `n` grid to the other
/// that only go right and down: `2n` choose `n`.
pub fn lattice_paths(n: u64) -> (r: u64)
    requires
        n <= 33,
    ensures
        r == binomial_coefficient(2 * n as nat, n as nat),
{
    binomial(2 * n, n)
}

} // verus!
