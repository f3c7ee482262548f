//! Prime numbers: a primality test and an incremental generator of the
//! primes in ascending order.

use vstd::prelude::*;
use crate::arith::{
    divides, lemma_cofactor, lemma_divides_transitive, lemma_multiple, lemma_odd_no_even_divisor,
};

verus! {

/// `n` is prime: at least 2, with no divisor strictly between 1 and itself.
pub open spec fn prime(n: nat) -> bool {
    n >= 2 && forall|d: nat| 2 <= d < n ==> #[trigger] (n % d) != 0
}

/// No divisor of `n` at all lies in `[2, i)`.
pub open spec fn no_divisor_below(n: nat, i: nat) -> bool {
    forall|d: nat| 2 <= d < i ==> #[trigger] (n % d) != 0
}

/// Trial division up to the square root is enough.
proof fn lemma_prime_by_root(n: nat, i: nat)
    requires
        n >= 2,
        i >= 2,
        i * i > n,
        no_divisor_below(n, i),
    ensures
        prime(n),
{
    assert forall|d: nat| 2 <= d < n implies #[trigger] (n % d) != 0 by {
        if d >= i && n % d == 0 {
            lemma_cofactor(n, d);
            let q = n / d;
            assert(q < i) by (nonlinear_arith)
                requires
                    d * q == n,
                    d >= i,
                    i * i > n,
                    i >= 2,
            ;
            assert(n % q != 0);
        }
    }
}

/// Check whether `n` is prime, by trial division with 2 and the odd numbers
/// up to its square root.
pub fn is_prime(n: u64) -> (r: bool)
    ensures
        r == prime(n as nat),
{
    if n == 0 || n == 1 {
        return false;
    }
    if n == 2 {
        return true;
    }
    if n % 2 == 0 {
        assert(n as nat % 2 == 0);
        return false;
    }
    let mut i: u64 = 3;
    while i <= n / i
        invariant
            3 <= i,
            i % 2 == 1,
            n % 2 == 1,
            n >= 3,
            no_divisor_below(n as nat, i as nat),
        decreases n - i,
    {
        assert(i * i <= n) by (nonlinear_arith)
            requires
                i <= n / i,
                i >= 3,
        ;
        assert(i < n) by (nonlinear_arith)
            requires
                i * i <= n,
                i >= 3,
        ;
        if n % i == 0 {
            assert(n as nat % i as nat == 0);
            return false;
        }
        proof {
            lemma_odd_no_even_divisor(n as nat, (i + 1) as nat);
            assert(i + 1 != n);
        }
        i = i + 2;
    }
    proof {
        assert(i * i > n) by (nonlinear_arith)
            requires
                i > n / i,
                i >= 3,
        ;
        lemma_prime_by_root(n as nat, i as nat);
    }
    true
}

/// Every number from 2 on has a prime divisor no larger than itself.
pub proof fn lemma_prime_divisor(d: nat) -> (p: nat)
    requires
        d >= 2,
    ensures
        prime(p),
        p <= d,
        divides(p, d),
    decreases d,
{
    if prime(d) {
        assert(d % d == 0) by {
            lemma_multiple(1, d as int);
        }
        d
    } else {
        let e: nat = choose|e: nat| 2 <= e < d && #[trigger] (d % e) == 0;
        let p = lemma_prime_divisor(e);
        lemma_divides_transitive(p, e, d);
        p
    }
}

/// An even number above 2 is not prime.
proof fn lemma_even_not_prime(q: nat)
    requires
        q > 2,
        q % 2 == 0,
    ensures
        !prime(q),
{
    assert(q % 2 == 0);
}

/// `s` lists the primes in ascending order from 2, with none left out.
pub open spec fn prime_prefix(s: Seq<u64>) -> bool {
    &&& s.len() > 0 ==> s[0] == 2
    &&& forall|i: int| 0 <= i < s.len() ==> prime(#[trigger] s[i] as nat)
    &&& forall|i: int, j: int| 0 <= i < j < s.len() ==> #[trigger] s[i] < #[trigger] s[j]
    &&& forall|i: int|
        #![trigger s[i]]
        0 <= i < s.len() - 1 ==> no_prime_between(s[i] as nat, s[i + 1] as nat)
}

/// No prime lies strictly between `a` and `b`.
pub open spec fn no_prime_between(a: nat, b: nat) -> bool {
    forall|q: nat| a < q < b ==> !#[trigger] prime(q)
}

/// A prime no larger than the last listed one is listed.
proof fn lemma_prime_listed(s: Seq<u64>, q: nat) -> (k: int)
    requires
        prime_prefix(s),
        s.len() > 0,
        prime(q),
        q <= s.last(),
    ensures
        0 <= k < s.len(),
        s[k] == q,
    decreases s.len(),
{
    if q == s.last() {
        s.len() - 1
    } else {
        let t = s.drop_last();
        assert(t.len() > 0) by {
            assert(s[0] == 2);
        }
        assert(q <= t.last()) by {
            if q > t.last() {
                assert(s[s.len() - 2] < q < s[s.len() - 1]);
            }
        }
        assert(prime_prefix(t)) by {
            assert forall|i: int| #![trigger t[i]] 0 <= i < t.len() - 1 implies no_prime_between(
                t[i] as nat,
                t[i + 1] as nat,
            ) by {
                assert(s[i] == t[i]);
            }
        }
        lemma_prime_listed(t, q)
    }
}

/// An endless generator of the primes in ascending order. The primes found so
/// far are kept and serve as the trial divisors of later candidates.
pub struct Primes {
    computed: Vec<u64>,
}

impl View for Primes {
    type V = Seq<u64>;

    closed spec fn view(&self) -> Seq<u64> {
        self.computed@
    }
}

impl Primes {
    /// The generator lists the primes found so far, and only those.
    pub open spec fn wf(&self) -> bool {
        prime_prefix(self@)
    }

    /// A generator that has found nothing yet.
    pub fn new() -> (r: Self)
        ensures
            r.wf(),
            r@ == Seq::<u64>::empty(),
    {
        Primes { computed: Vec::new() }
    }

    /// Whether `c`, larger than every prime found, is prime; the found primes
    /// up to its square root are tried first.
    fn passes_trial_division(&self, c: u64) -> (r: bool)
        requires
            self.wf(),
            self@.len() > 0,
            c > self@.last(),
        ensures
            r == prime(c as nat),
    {
        let mut j: usize = 0;
        while j < self.computed.len()
            invariant
                self.wf(),
                self@.len() > 0,
                c > self@.last(),
                j <= self@.len(),
                forall|k: int| 0 <= k < j ==> (c as nat) % (#[trigger] self@[k] as nat) != 0,
            decreases self@.len() - j,
        {
            let x = self.computed[j];
            assert(prime(x as nat));
            assert(x <= self@.last()) by {
                if j < self@.len() - 1 {
                    assert(self@[j as int] < self@[self@.len() - 1]);
                }
            }
            if x > c / x {
                proof {
                    assert(x * x > c) by (nonlinear_arith)
                        requires
                            x > c / x,
                            x >= 2,
                    ;
                    assert forall|d: nat| 2 <= d < x implies #[trigger] ((c as nat) % d) != 0 by {
                        if (c as nat) % d == 0 {
                            let q = lemma_prime_divisor(d);
                            let k = lemma_prime_listed(self@, q);
                            if k >= j {
                                assert(self@[j as int] <= self@[k]) by {
                                    if k > j {
                                        assert(self@[j as int] < self@[k]);
                                    }
                                }
                            }
                            lemma_divides_transitive(q, d, c as nat);
                        }
                    }
                    lemma_prime_by_root(c as nat, x as nat);
                }
                return true;
            }
            if c % x == 0 {
                assert((c as nat) % (x as nat) == 0);
                return false;
            }
            j = j + 1;
        }
        is_prime(c)
    }

    /// The next prime after those found so far, which is then kept; `None`
    /// once no prime that fits in a `u64` is left.
    pub fn next(&mut self) -> (r: Option<u64>)
        requires
            old(self).wf(),
        ensures
            final(self).wf(),
            match r {
                Some(p) => {
                    &&& final(self)@ == old(self)@.push(p)
                    &&& prime(p as nat)
                    &&& old(self)@.len() == 0 ==> p == 2
                    &&& old(self)@.len() > 0 ==> old(self)@.last() < p && forall|q: nat|
                        old(self)@.last() < q < p ==> !#[trigger] prime(q)
                },
                None => {
                    &&& final(self)@ == old(self)@
                    &&& old(self)@.len() > 0
                    &&& forall|q: nat| old(self)@.last() < q <= u64::MAX ==> !#[trigger] prime(q)
                },
            },
    {
        let len = self.computed.len();
        if len == 0 {
            assert(prime(2)) by {
                assert forall|d: nat| 2 <= d < 2 implies #[trigger] (2nat % d) != 0 by {}
            }
            self.computed.push(2);
            return Some(2);
        }
        let last = self.computed[len - 1];
        let out: u64;
        if last == 2 {
            assert(prime(3)) by {
                assert forall|d: nat| 2 <= d < 3 implies #[trigger] (3nat % d) != 0 by {
                    assert(d == 2);
                }
            }
            out = 3;
        } else {
            assert(last % 2 == 1) by {
                assert(prime(last as nat));
                assert(last > 2) by {
                    assert(self@[0] == 2);
                    if len > 1 {
                        assert(self@[0] < self@[len - 1]);
                    }
                }
                if last % 2 == 0 {
                    lemma_even_not_prime(last as nat);
                }
            }
            if last > u64::MAX - 2 {
                assert forall|q: nat| last < q <= u64::MAX implies !#[trigger] prime(q) by {
                    lemma_even_not_prime(q);
                }
                return None;
            }
            let mut c: u64 = last + 2;
            assert forall|q: nat| last < q < c implies !#[trigger] prime(q) by {
                lemma_even_not_prime(q);
            }
            while !self.passes_trial_division(c)
                invariant
                    self.wf(),
                    self@ == old(self)@,
                    self@.len() == len,
                    len > 0,
                    last == self@.last(),
                    last > 2,
                    last < c,
                    c % 2 == 1,
                    forall|q: nat| last < q < c ==> !#[trigger] prime(q),
                decreases u64::MAX - c,
            {
                if c > u64::MAX - 2 {
                    return None;
                }
                proof {
                    lemma_even_not_prime((c + 1) as nat);
                }
                c = c + 2;
            }
            out = c;
        }
        assert(prime(out as nat) && last < out && no_prime_between(last as nat, out as nat));
        self.computed.push(out);
        assert(prime_prefix(self@)) by {
            let s = self@;
            assert forall|i: int, j: int| 0 <= i < j < s.len() implies #[trigger] s[i] < #[trigger] s[j] by {
                if j < s.len() - 1 {
                    assert(old(self)@[i] < old(self)@[j]);
                } else if i < len - 1 {
                    assert(old(self)@[i] < old(self)@[len - 1]);
                }
            }
            assert forall|i: int| 0 <= i < s.len() implies prime(#[trigger] s[i] as nat) by {
                if i < len {
                    assert(s[i] == old(self)@[i]);
                }
            }
            assert forall|i: int| #![trigger s[i]] 0 <= i < s.len() - 1 implies no_prime_between(
                s[i] as nat,
                s[i + 1] as nat,
            ) by {
                if i < len - 1 {
                    assert(old(self)@[i] == s[i]);
                }
            }
        }
        Some(out)
    }

    /// Skip `n` primes and return the one after them, as `next` would.
    pub fn nth(&mut self, n: usize) -> (r: Option<u64>)
        requires
            old(self).wf(),
        ensures
            final(self).wf(),
            old(self)@.is_prefix_of(final(self)@),
            match r {
                Some(p) => final(self)@.len() == old(self)@.len() + n + 1 && final(self)@.last() == p,
                None => final(self)@.len() <= old(self)@.len() + n && final(self)@.len() > 0
                    && forall|q: nat| final(self)@.last() < q <= u64::MAX ==> !#[trigger] prime(q),
            },
    {
        let mut i: usize = 0;
        loop
            invariant
                self.wf(),
                i <= n,
                self@.len() == old(self)@.len() + i,
                old(self)@.is_prefix_of(self@),
            decreases n - i,
        {
            match self.next() {
                Some(p) => {
                    if i == n {
                        return Some(p);
                    }
                    i = i + 1;
                },
                None => {
                    return None;
                },
            }
        }
    }
}

} // verus!
