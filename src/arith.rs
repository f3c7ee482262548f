//! Facts about divisibility shared by the sequence generators.

use vstd::prelude::*;
use vstd::arithmetic::div_mod::{lemma_fundamental_div_mod, lemma_mod_multiples_basic};

verus! {

/// `b` raised to the power `e`.
pub open spec fn power(b: int, e: nat) -> int
    decreases e,
{
    if e == 0 {
        1
    } else {
        b * power(b, (e - 1) as nat)
    }
}

/// `d` divides `n`, for a positive `d`.
pub open spec fn divides(d: nat, n: nat) -> bool {
    d > 0 && n % d == 0
}

/// A multiple of `m` leaves no remainder, whichever side `m` stands on.
pub proof fn lemma_multiple(a: int, m: int)
    requires
        m > 0,
    ensures
        (a * m) % m == 0,
        (m * a) % m == 0,
{
    lemma_mod_multiples_basic(a, m);
    assert(m * a == a * m) by (nonlinear_arith);
}

/// When `d` divides `n`, `n` is `d` times the quotient.
pub proof fn lemma_divides_product(n: int, d: int)
    requires
        d > 0,
        n % d == 0,
    ensures
        n == d * (n / d),
        n == (n / d) * d,
{
    lemma_fundamental_div_mod(n, d);
    assert(d * (n / d) == (n / d) * d) by (nonlinear_arith);
}

/// An odd number has no even divisor.
pub proof fn lemma_odd_no_even_divisor(n: nat, d: nat)
    requires
        n % 2 == 1,
        d % 2 == 0,
        d > 0,
    ensures
        n % d != 0,
{
    if n % d == 0 {
        lemma_divides_product(n as int, d as int);
        let q = n as int / d as int;
        let e = d as int / 2;
        lemma_divides_product(d as int, 2);
        assert(n as int == (e * q) * 2) by (nonlinear_arith)
            requires
                n as int == d as int * q,
                d as int == 2 * e,
        ;
        lemma_multiple(e * q, 2);
    }
}

/// A divisor of a divisor of `n` divides `n`.
pub proof fn lemma_divides_transitive(a: nat, b: nat, n: nat)
    requires
        divides(a, b),
        divides(b, n),
    ensures
        divides(a, n),
{
    lemma_divides_product(b as int, a as int);
    lemma_divides_product(n as int, b as int);
    let x = b as int / a as int;
    let y = n as int / b as int;
    assert(n as int == (x * y) * a as int) by (nonlinear_arith)
        requires
            b as int == a as int * x,
            n as int == b as int * y,
    ;
    lemma_multiple(x * y, a as int);
}

/// The cofactor of a proper divisor is itself a divisor, at least 2.
pub proof fn lemma_cofactor(n: nat, d: nat)
    requires
        2 <= d < n,
        n % d == 0,
    ensures
        n / d >= 2,
        n % (n / d) == 0,
        d * (n / d) == n,
{
    lemma_divides_product(n as int, d as int);
    let q = n as int / d as int;
    assert(q >= 2) by (nonlinear_arith)
        requires
            n as int == d as int * q,
            2 <= d < n,
    ;
    lemma_multiple(d as int, q);
}

} // verus!
