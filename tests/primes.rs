use pj_euler::factorization::{number_of_divisors, prime_factors, PrimeFactor, PrimeFactorization};
use pj_euler::primes::{is_prime, Primes};

#[test]
fn small_numbers_primality() {
    assert!(!is_prime(0));
    assert!(!is_prime(1));
    for p in [2, 3, 5, 7, 11, 13, 17] {
        assert!(is_prime(p), "{} is prime", p);
    }
    for n in [4, 6, 8, 9, 10] {
        assert!(!is_prime(n), "{} is not prime", n);
    }
}

#[test]
fn large_primality() {
    assert!(is_prime(7919));
    assert!(is_prime(104_743));
    assert!(!is_prime(6_002_462));
    assert!(is_prime(18_446_744_073_709_551_557));
    assert!(!is_prime(u64::MAX));
}

#[test]
fn prime_exactly_when_two_divisors() {
    for n in 2..500u64 {
        assert_eq!(is_prime(n), number_of_divisors(n) == 2, "n = {}", n);
    }
}

#[test]
fn first_five_primes() {
    let mut p = Primes::new();
    assert_eq!(p.next(), Some(2));
    assert_eq!(p.next(), Some(3));
    assert_eq!(p.next(), Some(5));
    assert_eq!(p.next(), Some(7));
    assert_eq!(p.next(), Some(11));
}

#[test]
fn thousandth_prime() {
    assert_eq!(Primes::new().nth(999), Some(7919));
}

#[test]
fn nth_counts_from_the_current_position() {
    let mut p = Primes::new();
    assert_eq!(p.nth(0), Some(2));
    assert_eq!(p.nth(1), Some(5));
    assert_eq!(p.next(), Some(7));
}

#[test]
fn factorization_of_forty() {
    let mut pf = PrimeFactorization::of(40);
    assert_eq!(pf.next(), Some(PrimeFactor { factor: 2, exponent: 3 }));
    assert_eq!(pf.next(), Some(PrimeFactor { factor: 5, exponent: 1 }));
    assert_eq!(pf.next(), None);
    assert_eq!(pf.next(), None);
}

#[test]
fn factorization_of_one_is_empty() {
    let mut pf = PrimeFactorization::of(1);
    assert_eq!(pf.next(), None);
    assert!(prime_factors(1).is_empty());
}

#[test]
fn factorization_of_a_large_number() {
    assert_eq!(
        prime_factors(6_002_462),
        vec![
            PrimeFactor { factor: 2, exponent: 1 },
            PrimeFactor { factor: 17, exponent: 1 },
            PrimeFactor { factor: 53, exponent: 1 },
            PrimeFactor { factor: 3331, exponent: 1 },
        ]
    );
    assert_eq!(
        prime_factors(1 << 63),
        vec![PrimeFactor { factor: 2, exponent: 63 }]
    );
}

#[test]
fn factors_multiply_back() {
    for n in 1..2000u64 {
        let fs = prime_factors(n);
        let product: u64 = fs.iter().map(|f| f.factor.pow(f.exponent as u32)).product();
        assert_eq!(product, n);
        for w in fs.windows(2) {
            assert!(w[0].factor < w[1].factor);
        }
        for f in &fs {
            assert!(is_prime(f.factor));
            assert!(f.exponent >= 1);
        }
    }
}

#[test]
fn divisor_counts() {
    assert_eq!(number_of_divisors(28), 6);
    assert_eq!(number_of_divisors(1), 1);
    assert_eq!(number_of_divisors(2), 2);
    assert_eq!(number_of_divisors(76_576_500), 576);
}
