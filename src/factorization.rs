//! The factorization of a number into prime powers, yielded lazily in
//! ascending order of the primes, and the count of divisors derived from it.

use vstd::prelude::*;
use vstd::arithmetic::div_mod::lemma_div_decreases;
use crate::arith::{
    divides, lemma_divides_product, lemma_divides_transitive, lemma_multiple, lemma_odd_no_even_divisor,
    power,
};
use crate::primes::{no_divisor_below, prime};

verus! {

/// One term `factor ^ exponent` of a factorization.
#[derive(Clone, Copy, Debug, PartialEq, Eq, Structural)]
pub struct PrimeFactor {
    pub factor: u64,
    pub exponent: u64,
}

/// The product of `factor ^ exponent` over the terms.
pub open spec fn factor_product(s: Seq<PrimeFactor>) -> int
    decreases s.len(),
{
    if s.len() == 0 {
        1
    } else {
        factor_product(s.drop_last()) * power(s.last().factor as int, s.last().exponent as nat)
    }
}

/// The product of `exponent + 1` over the terms.
pub open spec fn divisor_product(s: Seq<PrimeFactor>) -> int
    decreases s.len(),
{
    if s.len() == 0 {
        1
    } else {
        divisor_product(s.drop_last()) * (s.last().exponent + 1)
    }
}

/// Prime factors with positive exponents, in strictly ascending order.
pub open spec fn ascending_prime_terms(s: Seq<PrimeFactor>) -> bool {
    &&& forall|i: int| 0 <= i < s.len() ==> prime(#[trigger] s[i].factor as nat)
    &&& forall|i: int| 0 <= i < s.len() ==> #[trigger] s[i].exponent >= 1
    &&& forall|i: int, j: int| 0 <= i < j < s.len() ==> #[trigger] s[i].factor < #[trigger] s[j].factor
}

/// `s` is the prime factorization of `n`.
pub open spec fn is_factorization(s: Seq<PrimeFactor>, n: nat) -> bool {
    ascending_prime_terms(s) && factor_product(s) == n
}

/// `d` is the number of divisors of `n`, read off its prime factorization.
pub open spec fn has_divisor_count(n: nat, d: nat) -> bool {
    exists|s: Seq<PrimeFactor>| is_factorization(s, n) && divisor_product(s) == d
}

/// An exponent stays below the power it raises a number of at least 2 to.
pub proof fn lemma_exponent_below_power(p: int, e: nat)
    requires
        p >= 2,
    ensures
        e < power(p, e),
        power(p, e) >= 1,
    decreases e,
{
    if e > 0 {
        lemma_exponent_below_power(p, (e - 1) as nat);
        assert(e < p * power(p, (e - 1) as nat) && p * power(p, (e - 1) as nat) >= 1)
            by (nonlinear_arith)
            requires
                e - 1 < power(p, (e - 1) as nat),
                power(p, (e - 1) as nat) >= 1,
                p >= 2,
                e >= 1,
        ;
    }
}

proof fn lemma_factor_product_push(s: Seq<PrimeFactor>, f: PrimeFactor)
    ensures
        factor_product(s.push(f)) == factor_product(s) * power(f.factor as int, f.exponent as nat),
        divisor_product(s.push(f)) == divisor_product(s) * (f.exponent + 1),
{
    assert(s.push(f).drop_last() =~= s);
}

/// The divisor count never exceeds the number.
proof fn lemma_divisor_product_bound(s: Seq<PrimeFactor>)
    requires
        ascending_prime_terms(s),
    ensures
        1 <= divisor_product(s) <= factor_product(s),
    decreases s.len(),
{
    if s.len() > 0 {
        let t = s.drop_last();
        assert(ascending_prime_terms(t)) by {
            assert forall|i: int, j: int| 0 <= i < j < t.len() implies #[trigger] t[i].factor
                < #[trigger] t[j].factor by {
                assert(s[i].factor < s[j].factor);
            }
            assert forall|i: int| 0 <= i < t.len() implies prime(#[trigger] t[i].factor as nat) by {
                assert(prime(s[i].factor as nat));
            }
            assert forall|i: int| 0 <= i < t.len() implies #[trigger] t[i].exponent >= 1 by {
                assert(s[i].exponent >= 1);
            }
        }
        lemma_divisor_product_bound(t);
        let f = s.last();
        assert(prime(f.factor as nat) && f.exponent >= 1) by {
            assert(prime(s[s.len() - 1].factor as nat));
            assert(s[s.len() - 1].exponent >= 1);
        }
        lemma_exponent_below_power(f.factor as int, f.exponent as nat);
        let a = divisor_product(t);
        let b = factor_product(t);
        let c = f.exponent + 1;
        let d = power(f.factor as int, f.exponent as nat);
        assert(1 <= a * c <= b * d) by (nonlinear_arith)
            requires
                1 <= a <= b,
                1 <= c <= d,
        ;
    }
}

/// A lazy factorization of a number into prime powers, smallest prime first.
/// It holds what is left to factor and the current trial divisor.
pub struct PrimeFactorization {
    num: u64,
    factor: u64,
    emitted: Ghost<Seq<PrimeFactor>>,
    target: Ghost<nat>,
}

impl PrimeFactorization {
    /// The number being factored.
    pub closed spec fn target(&self) -> nat {
        self.target@
    }

    /// What is left of it to factor.
    pub closed spec fn remaining(&self) -> nat {
        self.num as nat
    }

    /// The terms yielded so far.
    pub closed spec fn emitted(&self) -> Seq<PrimeFactor> {
        self.emitted@
    }

    /// The yielded terms times what is left make the number being factored; what is
    /// left has no divisor below the trial divisor, nor any yielded prime.
    pub closed spec fn wf(&self) -> bool {
        let s = self.emitted@;
        &&& ascending_prime_terms(s)
        &&& factor_product(s) * self.num == self.target@
        &&& self.target@ >= 1 ==> self.num >= 1
        &&& self.factor >= 2
        &&& self.factor == 2 || self.factor % 2 == 1
        &&& no_divisor_below(self.num as nat, self.factor as nat)
        &&& s.len() > 0 ==> s.last().factor <= self.factor && self.num % s.last().factor != 0
    }

    /// What the well-formedness of a factorization in progress gives its
    /// callers.
    pub proof fn lemma_wf(&self)
        requires
            self.wf(),
        ensures
            ascending_prime_terms(self.emitted()),
            factor_product(self.emitted()) * self.remaining() == self.target(),
            self.target() >= 1 ==> self.remaining() >= 1,
    {
    }

    /// Start the factorization of `num`.
    pub fn of(num: u64) -> (r: Self)
        ensures
            r.wf(),
            r.target() == num,
            r.remaining() == num,
            r.emitted() == Seq::<PrimeFactor>::empty(),
    {
        PrimeFactorization {
            num,
            factor: 2,
            emitted: Ghost(Seq::empty()),
            target: Ghost(num as nat),
        }
    }

    /// The next prime power of the factorization, `None` once nothing is left.
    pub fn next(&mut self) -> (r: Option<PrimeFactor>)
        requires
            old(self).wf(),
        ensures
            final(self).wf(),
            final(self).target() == old(self).target(),
            r is None <==> old(self).remaining() <= 1,
            match r {
                None => {
                    &&& final(self).emitted() == old(self).emitted()
                    &&& final(self).remaining() == old(self).remaining()
                    &&& old(self).target() >= 1 ==> is_factorization(
                        final(self).emitted(),
                        old(self).target(),
                    )
                },
                Some(f) => {
                    &&& final(self).emitted() == old(self).emitted().push(f)
                    &&& prime(f.factor as nat)
                    &&& f.exponent >= 1
                    &&& divides(f.factor as nat, old(self).remaining())
                    &&& no_divisor_below(old(self).remaining(), f.factor as nat)
                    &&& power(f.factor as int, f.exponent as nat) * final(self).remaining() == old(
                        self,
                    ).remaining()
                    &&& final(self).remaining() % (f.factor as nat) != 0
                    &&& final(self).remaining() < old(self).remaining()
                },
            },
    {
        if self.num <= 1 {
            proof {
                if self.target@ >= 1 {
                    assert(factor_product(self.emitted@) * 1 == self.target@);
                }
            }
            return None;
        }
        let num = self.num;
        assert(self.factor <= num) by {
            if self.factor > num {
                lemma_multiple(1, num as int);
                assert((num as nat) % (num as nat) == 0);
            }
        }
        while num % self.factor != 0
            invariant
                self.wf(),
                self.num == num,
                num >= 2,
                self.emitted@ == old(self).emitted@,
                self.target@ == old(self).target@,
                self.factor <= num,
            decreases num - self.factor,
        {
            proof {
                assert(self.factor != num) by {
                    lemma_multiple(1, num as int);
                }
                if self.factor != 2 {
                    assert(num % 2 == 1) by {
                        assert((num as nat) % 2nat != 0);
                    }
                    lemma_odd_no_even_divisor(num as nat, (self.factor + 1) as nat);
                    assert(self.factor + 1 != num);
                }
            }
            let ghost f0 = self.factor;
            if self.factor == 2 {
                self.factor = 3;
            } else {
                self.factor = self.factor + 2;
            }
            proof {
                assert forall|d: nat| 2 <= d < self.factor implies #[trigger] ((num as nat) % d)
                    != 0 by {
                    if d == f0 {
                        assert((num as nat) % (f0 as nat) != 0);
                    } else if d > f0 {
                        assert(d == f0 + 1);
                    }
                }
            }
        }
        let p = self.factor;
        assert(prime(p as nat)) by {
            assert forall|d: nat| 2 <= d < p implies #[trigger] ((p as nat) % d) != 0 by {
                if (p as nat) % d == 0 {
                    lemma_divides_transitive(d, p as nat, num as nat);
                }
            }
        }
        let ghost before = num as nat;
        let mut rest: u64 = num / p;
        let mut exponent: u64 = 1;
        proof {
            lemma_divides_product(num as int, p as int);
            assert(power(p as int, 0) == 1);
            assert(power(p as int, 1) == p);
            assert(rest >= 1) by (nonlinear_arith)
                requires
                    num == p * rest,
                    num >= 2,
            ;
        }
        while rest % p == 0
            invariant
                p >= 2,
                exponent >= 1,
                rest >= 1,
                power(p as int, exponent as nat) * rest == before,
                before <= u64::MAX,
            decreases rest,
        {
            proof {
                lemma_divides_product(rest as int, p as int);
                lemma_div_decreases(rest as int, p as int);
                lemma_exponent_below_power(p as int, exponent as nat);
                let q = rest as int / p as int;
                let w = power(p as int, exponent as nat);
                assert((p * w) * q == before) by (nonlinear_arith)
                    requires
                        w * rest == before,
                        rest == p * q,
                ;
                assert(q >= 1) by (nonlinear_arith)
                    requires
                        rest == p * q,
                        rest >= 1,
                        p >= 2,
                ;
                assert(w <= before) by (nonlinear_arith)
                    requires
                        w * rest == before,
                        rest >= 1,
                        w >= 1,
                ;
            }
            rest = rest / p;
            exponent = exponent + 1;
        }
        let f = PrimeFactor { factor: p, exponent };
        proof {
            let s = old(self).emitted@;
            let w = power(p as int, exponent as nat);
            lemma_exponent_below_power(p as int, exponent as nat);
            lemma_factor_product_push(s, f);
            assert(factor_product(s.push(f)) * rest == self.target@) by (nonlinear_arith)
                requires
                    factor_product(s.push(f)) == factor_product(s) * w,
                    w * rest == before,
                    factor_product(s) * before == self.target@,
            ;
            assert(rest < before) by (nonlinear_arith)
                requires
                    w * rest == before,
                    w > exponent,
                    exponent >= 1,
                    rest >= 1,
            ;
            assert(divides(rest as nat, before)) by {
                assert(before == w * rest);
                lemma_multiple(w, rest as int);
            }
            assert forall|d: nat| 2 <= d < p implies #[trigger] ((rest as nat) % d) != 0 by {
                if (rest as nat) % d == 0 {
                    lemma_divides_transitive(d, rest as nat, before);
                }
            }
            if s.len() > 0 {
                assert(s.last().factor < p) by {
                    assert(s.last().factor != p);
                }
            }
            let t = s.push(f);
            assert(ascending_prime_terms(t)) by {
                assert forall|i: int, j: int| 0 <= i < j < t.len() implies #[trigger] t[i].factor
                    < #[trigger] t[j].factor by {
                    if j == t.len() - 1 {
                        if i < s.len() - 1 {
                            assert(s[i].factor < s[s.len() - 1].factor);
                        }
                    } else {
                        assert(s[i].factor < s[j].factor);
                    }
                }
                assert forall|i: int| 0 <= i < t.len() implies prime(#[trigger] t[i].factor as nat) by {
                    if i < s.len() {
                        assert(prime(s[i].factor as nat));
                    }
                }
                assert forall|i: int| 0 <= i < t.len() implies #[trigger] t[i].exponent >= 1 by {
                    if i < s.len() {
                        assert(s[i].exponent >= 1);
                    }
                }
            }
        }
        self.num = rest;
        self.emitted = Ghost(self.emitted@.push(f));
        Some(f)
    }
}

/// The prime factorization of `n`, every term in ascending order.
pub fn prime_factors(n: u64) -> (r: Vec<PrimeFactor>)
    requires
        n >= 1,
    ensures
        is_factorization(r@, n as nat),
{
    let mut pf = PrimeFactorization::of(n);
    let mut out: Vec<PrimeFactor> = Vec::new();
    loop
        invariant
            pf.wf(),
            n >= 1,
            pf.target() == n,
            out@ == pf.emitted(),
        ensures
            is_factorization(out@, n as nat),
        decreases pf.remaining(),
    {
        match pf.next() {
            Some(f) => out.push(f),
            None => break,
        }
    }
    out
}

/// The number of positive divisors of `n`: the product of `exponent + 1`
/// over its prime factorization.
pub fn number_of_divisors(n: u64) -> (r: u64)
    requires
        n >= 1,
    ensures
        has_divisor_count(n as nat, r as nat),
{
    let mut pf = PrimeFactorization::of(n);
    let mut count: u64 = 1;
    loop
        invariant
            pf.wf(),
            n >= 1,
            pf.target() == n,
            count == divisor_product(pf.emitted()),
        ensures
            is_factorization(pf.emitted(), n as nat),
            count == divisor_product(pf.emitted()),
        decreases pf.remaining(),
    {
        let ghost before = pf.emitted();
        proof {
            pf.lemma_wf();
            lemma_divisor_product_bound(before);
        }
        match pf.next() {
            Some(f) => {
                proof {
                    pf.lemma_wf();
                    let s = pf.emitted();
                    lemma_divisor_product_bound(s);
                    lemma_factor_product_push(before, f);
                    lemma_exponent_below_power(f.factor as int, f.exponent as nat);
                    let w = power(f.factor as int, f.exponent as nat);
                    assert(w <= factor_product(s)) by (nonlinear_arith)
                        requires
                            factor_product(s) == factor_product(before) * w,
                            factor_product(before) >= 1,
                            w >= 1,
                    ;
                    assert(factor_product(s) <= n) by (nonlinear_arith)
                        requires
                            factor_product(s) * pf.remaining() == n,
                            pf.remaining() >= 1,
                            factor_product(s) >= 1,
                    ;
                }
                count = count * (f.exponent + 1);
            },
            None => break,
        }
    }
    count
}

/// The divisor product grows with the number of terms.
proof fn lemma_divisor_product_len(s: Seq<PrimeFactor>)
    requires
        ascending_prime_terms(s),
    ensures
        divisor_product(s) >= s.len() + 1,
    decreases s.len(),
{
    if s.len() > 0 {
        let t = s.drop_last();
        assert(ascending_prime_terms(t)) by {
            assert forall|i: int, j: int| 0 <= i < j < t.len() implies #[trigger] t[i].factor
                < #[trigger] t[j].factor by {
                assert(s[i].factor < s[j].factor);
            }
            assert forall|i: int| 0 <= i < t.len() implies prime(#[trigger] t[i].factor as nat) by {
                assert(prime(s[i].factor as nat));
            }
            assert forall|i: int| 0 <= i < t.len() implies #[trigger] t[i].exponent >= 1 by {
                assert(s[i].exponent >= 1);
            }
        }
        lemma_divisor_product_len(t);
        assert(s[s.len() - 1].exponent >= 1);
        let a = divisor_product(t);
        let e = s.last().exponent;
        assert(a * (e + 1) >= t.len() + 2) by (nonlinear_arith)
            requires
                a >= t.len() + 1,
                e >= 1,
        ;
    }
}

/// A number that is the product of two factors of at least 2 is not prime.
proof fn lemma_product_not_prime(a: int, b: int)
    requires
        a >= 2,
        b >= 2,
    ensures
        !prime((a * b) as nat),
{
    lemma_multiple(b, a);
    assert(a < a * b) by (nonlinear_arith)
        requires
            a >= 2,
            b >= 2,
    ;
    assert(((a * b) as nat) % (a as nat) == 0) by {
        assert(b * a == a * b) by (nonlinear_arith);
    }
}

/// A number of at least 2 is prime exactly when it has two divisors.
pub proof fn lemma_prime_iff_two_divisors(n: nat, d: nat)
    requires
        n >= 2,
        has_divisor_count(n, d),
    ensures
        prime(n) <==> d == 2,
{
    let s = choose|s: Seq<PrimeFactor>| is_factorization(s, n) && divisor_product(s) == d;
    lemma_divisor_product_len(s);
    lemma_divisor_product_bound(s);
    assert(s.len() > 0);
    let t = s.drop_last();
    let f = s.last();
    assert(prime(f.factor as nat) && f.exponent >= 1) by {
        assert(prime(s[s.len() - 1].factor as nat));
        assert(s[s.len() - 1].exponent >= 1);
    }
    let p = f.factor as int;
    let e = f.exponent as nat;
    lemma_exponent_below_power(p, e);
    assert(factor_product(s) == factor_product(t) * power(p, e));
    assert(divisor_product(s) == divisor_product(t) * (e + 1));
    if d == 2 {
        assert(s.len() == 1);
        assert(t.len() == 0);
        assert(e == 1) by (nonlinear_arith)
            requires
                divisor_product(t) == 1,
                d == 2,
                divisor_product(t) * (e + 1) == d,
        ;
        assert(factor_product(t) == 1);
        assert(power(p, 0) == 1);
        assert(power(p, 1) == p * power(p, 0));
        assert(n == p) by (nonlinear_arith)
            requires
                n == factor_product(t) * power(p, e),
                factor_product(t) == 1,
                power(p, e) == p * power(p, 0),
                power(p, 0) == 1,
        ;
    }
    if prime(n) {
        if s.len() >= 2 {
            assert(ascending_prime_terms(t)) by {
                assert forall|i: int, j: int| 0 <= i < j < t.len() implies #[trigger] t[i].factor
                    < #[trigger] t[j].factor by {
                    assert(s[i].factor < s[j].factor);
                }
                assert forall|i: int| 0 <= i < t.len() implies prime(
                    #[trigger] t[i].factor as nat,
                ) by {
                    assert(prime(s[i].factor as nat));
                }
                assert forall|i: int| 0 <= i < t.len() implies #[trigger] t[i].exponent >= 1 by {
                    assert(s[i].exponent >= 1);
                }
            }
            lemma_divisor_product_len(t);
            lemma_divisor_product_bound(t);
            lemma_product_not_prime(factor_product(t), power(p, e));
        } else {
            assert(t.len() == 0);
            assert(factor_product(t) == 1);
            assert(n == power(p, e)) by (nonlinear_arith)
                requires
                    n == factor_product(t) * power(p, e),
                    factor_product(t) == 1,
            ;
            if e >= 2 {
                let w = power(p, (e - 1) as nat);
                lemma_exponent_below_power(p, (e - 1) as nat);
                assert(n == p * w);
                lemma_product_not_prime(p, w);
            }
            assert(e == 1);
            assert(divisor_product(t) == 1);
            assert(d == 2) by (nonlinear_arith)
                requires
                    d == divisor_product(t) * (e + 1),
                    divisor_product(t) == 1,
                    e == 1,
            ;
        }
    }
}

} // verus!
