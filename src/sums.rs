//! Sums: the multiples of 3 or 5 below a bound, the even Fibonacci numbers
//! below a bound, and the square of a sum against the sum of squares.

use vstd::prelude::*;

verus! {

/// The sum of the numbers below `b` that are multiples of 3 or of 5.
pub open spec fn multiples_sum(b: nat) -> nat
    decreases b,
{
    if b == 0 {
        0
    } else {
        let x = (b - 1) as nat;
        multiples_sum(x) + if x % 3 == 0 || x % 5 == 0 {
            x
        } else {
            0
        }
    }
}

/// The sum grows with the bound, and stays below its square.
pub proof fn lemma_multiples_sum_bounds(a: nat, b: nat)
    requires
        a <= b,
    ensures
        multiples_sum(a) <= multiples_sum(b),
        multiples_sum(b) <= b * b,
    decreases b,
{
    if b > 0 {
        if a < b {
            lemma_multiples_sum_bounds(a, (b - 1) as nat);
        } else {
            lemma_multiples_sum_bounds((b - 1) as nat, (b - 1) as nat);
        }
        let c = (b - 1) as nat;
        assert(c * c + c <= b * b) by (nonlinear_arith)
            requires
                c + 1 == b,
        ;
    }
}

/// The sum of the multiples of 3 or 5 below `bound`.
pub fn sum_of_multiples_below(bound: u32) -> (r: u32)
    requires
        multiples_sum(bound as nat) <= u32::MAX,
    ensures
        r == multiples_sum(bound as nat),
{
    let mut sum: u32 = 0;
    let mut x: u32 = 0;
    while x < bound
        invariant
            x <= bound,
            sum == multiples_sum(x as nat),
            multiples_sum(bound as nat) <= u32::MAX,
        decreases bound - x,
    {
        proof {
            lemma_multiples_sum_bounds((x + 1) as nat, bound as nat);
        }
        if x % 3 == 0 || x % 5 == 0 {
            sum = sum + x;
        }
        x = x + 1;
    }
    sum
}

/// The Fibonacci numbers 1, 2, 3, 5, 8, ...
pub open spec fn fib(k: nat) -> nat
    decreases k,
{
    if k == 0 {
        1
    } else if k == 1 {
        2
    } else {
        fib((k - 1) as nat) + fib((k - 2) as nat)
    }
}

/// The first `i` even Fibonacci numbers, `fib(1)`, `fib(4)`, `fib(7)`, ...,
/// added up. Every third Fibonacci number is even, from 2 on.
pub open spec fn even_fib_sum(i: nat) -> nat
    decreases i,
{
    if i == 0 {
        0
    } else {
        even_fib_sum((i - 1) as nat) + fib((3 * i - 2) as nat)
    }
}

proof fn lemma_fib_steps(i: nat)
    ensures
        fib(3 * i + 4) <= 5 * fib(3 * i + 1),
        fib(3 * i + 1) < fib(3 * i + 4),
        even_fib_sum(i) <= fib(3 * i + 1),
        fib(3 * i) <= fib(3 * i + 1),
    decreases i,
{
    assert(fib(3 * i + 2) == fib(3 * i + 1) + fib(3 * i));
    assert(fib(3 * i + 3) == fib(3 * i + 2) + fib(3 * i + 1));
    assert(fib(3 * i + 4) == fib(3 * i + 3) + fib(3 * i + 2));
    if i == 0 {
        assert(fib(1) == 2);
    } else {
        lemma_fib_steps((i - 1) as nat);
        assert(3 * (i - 1) + 4 == 3 * i + 1);
        assert(3 * i - 2 == 3 * (i - 1) + 1);
        assert(fib(3 * i) == fib((3 * i - 1) as nat) + fib((3 * i - 2) as nat));
    }
}

/// The sum of the even Fibonacci numbers below `bound`: `k` of them lie
/// below it.
pub fn even_fibonacci_sum(bound: u32) -> (r: u32)
    requires
        bound <= u32::MAX / 5,
    ensures
        exists|k: nat| {
            &&& fib(3 * k + 1) >= bound
            &&& forall|t: nat| t < k ==> #[trigger] fib(3 * t + 1) < bound
            &&& r == even_fib_sum(k)
        },
{
    let mut prev: u32 = 1;
    let mut curr: u32 = 2;
    let mut out: u32 = 0;
    let ghost mut i: nat = 0;
    while curr < bound
        invariant
            bound <= u32::MAX / 5,
            prev == fib(3 * i),
            curr == fib(3 * i + 1),
            out == even_fib_sum(i),
            forall|t: nat| t < i ==> #[trigger] fib(3 * t + 1) < bound,
        decreases u32::MAX - curr,
    {
        proof {
            lemma_fib_steps(i);
            assert(even_fib_sum(i + 1) == even_fib_sum(i) + fib(3 * i + 1)) by {
                assert((3 * (i + 1) - 2) as nat == 3 * i + 1);
            }
        }
        out = out + curr;
        let mut step: u32 = 0;
        while step < 3
            invariant
                step <= 3,
                prev == fib(3 * i + step as nat),
                curr == fib(3 * i + step as nat + 1),
                fib(3 * i + 4) <= 5 * fib(3 * i + 1),
                fib(3 * i + 1) < bound,
                bound <= u32::MAX / 5,
                fib(3 * i) <= fib(3 * i + 1),
            decreases 3 - step,
        {
            assert(fib(3 * i + step as nat + 2) == fib(3 * i + step as nat + 1) + fib(3 * i + step as nat));
            assert(fib(3 * i + step as nat + 2) <= fib(3 * i + 4)) by {
                assert(fib(3 * i + 2) == fib(3 * i + 1) + fib(3 * i));
                assert(fib(3 * i + 3) == fib(3 * i + 2) + fib(3 * i + 1));
                assert(fib(3 * i + 4) == fib(3 * i + 3) + fib(3 * i + 2));
            }
            let next = prev + curr;
            prev = curr;
            curr = next;
            step = step + 1;
        }
        proof {
            assert forall|t: nat| t < i + 1 implies #[trigger] fib(3 * t + 1) < bound by {
                if t == i {
                }
            }
            i = i + 1;
            assert(3 * (i - 1) + 3 == 3 * i);
            assert(3 * (i - 1) + 4 == 3 * i + 1);
        }
    }
    out
}

/// `1 + 2 + ... + n`.
pub open spec fn sum_to(n: nat) -> nat
    decreases n,
{
    if n == 0 {
        0
    } else {
        sum_to((n - 1) as nat) + n
    }
}

/// `1^2 + 2^2 + ... + n^2`.
pub open spec fn sum_of_squares(n: nat) -> nat
    decreases n,
{
    if n == 0 {
        0
    } else {
        sum_of_squares((n - 1) as nat) + n * n
    }
}

/// The closed forms of both sums.
pub proof fn lemma_closed_forms(n: nat)
    ensures
        2 * sum_to(n) == n * (n + 1),
        6 * sum_of_squares(n) == n * (n + 1) * (2 * n + 1),
    decreases n,
{
    if n == 0 {
        assert(n * (n + 1) == 0 && n * (n + 1) * (2 * n + 1) == 0) by (nonlinear_arith)
            requires
                n == 0,
        ;
    } else {
        let m = (n - 1) as nat;
        lemma_closed_forms(m);
        let a = sum_to(m);
        let q = sum_of_squares(m);
        assert(sum_to(n) == a + n);
        assert(sum_of_squares(n) == q + n * n);
        assert(2 * (a + n) == n * (n + 1)) by (nonlinear_arith)
            requires
                2 * a == m * (m + 1),
                m + 1 == n,
        ;
        assert(6 * (q + n * n) == n * (n + 1) * (2 * n + 1)) by (nonlinear_arith)
            requires
                6 * q == m * (m + 1) * (2 * m + 1),
                m + 1 == n,
        ;
    }
}

/// The square of `1 + ... + bound` less the sum of the squares of `1` to
/// `bound`, from the closed forms of both.
pub fn sum_square_difference(bound: u32) -> (r: u32)
    requires
        sum_to(bound as nat) * sum_to(bound as nat) <= u32::MAX,
    ensures
        r == sum_to(bound as nat) * sum_to(bound as nat) - sum_of_squares(bound as nat),
{
    let b = bound as u64;
    proof {
        lemma_closed_forms(bound as nat);
        let t = sum_to(bound as nat);
        assert(b <= 65536) by (nonlinear_arith)
            requires
                t * t <= u32::MAX,
                2 * t == b * (b + 1),
        ;
        assert(sum_of_squares(bound as nat) <= t * t) by {
            lemma_squares_below_square(bound as nat);
        }
    }
    assert(b * (b + 1) <= 65536 * 65537) by (nonlinear_arith)
        requires
            b <= 65536,
    ;
    let t = b * (b + 1) / 2;
    assert(t == sum_to(bound as nat));
    assert(t * t <= u32::MAX);
    assert((2 * b + 1) * (b + 1) <= 131073 * 65537) by (nonlinear_arith)
        requires
            b <= 65536,
    ;
    assert((2 * b + 1) * (b + 1) * b <= 131073 * 65537 * 65536) by (nonlinear_arith)
        requires
            b <= 65536,
    ;
    let q = (2 * b + 1) * (b + 1) * b / 6;
    assert(q == sum_of_squares(bound as nat)) by (nonlinear_arith)
        requires
            6 * sum_of_squares(bound as nat) == b * (b + 1) * (2 * b + 1),
            q == (2 * b + 1) * (b + 1) * b / 6,
    ;
    (t * t - q) as u32
}

/// The sum of the squares never passes the square of the sum.
proof fn lemma_squares_below_square(n: nat)
    ensures
        sum_of_squares(n) <= sum_to(n) * sum_to(n),
    decreases n,
{
    if n > 0 {
        let m = (n - 1) as nat;
        lemma_squares_below_square(m);
        let a = sum_to(m);
        assert(sum_of_squares(m) + n * n <= (a + n) * (a + n)) by (nonlinear_arith)
            requires
                sum_of_squares(m) <= a * a,
                a >= 0,
        ;
    }
}

/// `a < b < c` are the sides of a right triangle with perimeter `sum`.
pub open spec fn pythagorean(a: nat, b: nat, c: nat, sum: nat) -> bool {
    1 <= a < b < c && a + b + c == sum && a * a + b * b == c * c
}

/// The product `a * b * c` of the Pythagorean triplet with `a + b + c ==
/// sum`, the one with the smallest `a`, then `b`; `None` where there is none.
pub fn pythagorean_triplet_product(sum: u32) -> (r: Option<u32>)
    requires
        sum <= 1600,
    ensures
        match r {
            Some(p) => exists|a: nat, b: nat, c: nat| {
                &&& #[trigger] pythagorean(a, b, c, sum as nat)
                &&& p == a * b * c
                &&& forall|x: nat, y: nat, z: nat| #[trigger]
                    pythagorean(x, y, z, sum as nat) ==> a < x || (a == x && b <= y)
            },
            None => forall|a: nat, b: nat, c: nat| !#[trigger] pythagorean(a, b, c, sum as nat),
        },
{
    let mut a: u32 = 1;
    while a <= sum
        invariant
            sum <= 1600,
            1 <= a <= sum + 1,
            forall|x: nat, y: nat, z: nat| #[trigger] pythagorean(x, y, z, sum as nat) ==> x >= a,
        decreases sum + 1 - a,
    {
        let mut b: u32 = a + 1;
        if b > sum {
            proof {
                assert forall|x: nat, y: nat, z: nat| #[trigger]
                    pythagorean(x, y, z, sum as nat) implies x >= a + 1 by {}
            }
            a = a + 1;
            continue;
        }
        while b <= (sum - a) / 2
            invariant
                sum <= 1600,
                1 <= a <= sum,
                a + 1 <= b <= sum,
                forall|x: nat, y: nat, z: nat| #[trigger]
                    pythagorean(x, y, z, sum as nat) ==> x > a || (x == a && y >= b),
            decreases sum - b,
        {
            let c = sum - a - b;
            assert(a < b && b <= c);
            assert((a as u64) * (a as u64) <= 1600 * 1600 && (b as u64) * (b as u64) <= 1600 * 1600
                && (c as u64) * (c as u64) <= 1600 * 1600) by (nonlinear_arith)
                requires
                    a <= 1600,
                    b <= 1600,
                    c <= 1600,
            ;
            if (a as u64) * (a as u64) + (b as u64) * (b as u64) == (c as u64) * (c as u64) {
                proof {
                    assert(b < c) by (nonlinear_arith)
                        requires
                            a * a + b * b == c * c,
                            a >= 1,
                            b <= c,
                    ;
                    assert(pythagorean(a as nat, b as nat, c as nat, sum as nat));
                    assert(a * b <= 1600 * 1600) by (nonlinear_arith)
                        requires
                            a <= 1600,
                            b <= 1600,
                    ;
                    assert(a * b * c <= 1600 * 1600 * 1600) by (nonlinear_arith)
                        requires
                            a * b <= 1600 * 1600,
                            c <= 1600,
                    ;
                }
                return Some(a * b * c);
            }
            proof {
                assert forall|x: nat, y: nat, z: nat| #[trigger]
                    pythagorean(x, y, z, sum as nat) implies x > a || (x == a && y >= b + 1) by {
                    if x == a && y == b {
                        assert(z == c);
                    }
                }
            }
            b = b + 1;
        }
        proof {
            assert forall|x: nat, y: nat, z: nat| #[trigger]
                pythagorean(x, y, z, sum as nat) implies x >= a + 1 by {
                if x == a {
                    assert(y <= (sum - a) / 2);
                }
            }
        }
        a = a + 1;
    }
    None
}

} // verus!
