//! Endless numeric sequences: the triangular numbers, with a skip ahead by
//! the closed form, and the Collatz trajectory of a start value.

use vstd::prelude::*;

verus! {

/// The `n`-th triangular number, counting from `triangle(0) == 0`.
pub open spec fn triangle(n: nat) -> nat {
    n * (n + 1) / 2
}

/// The triangular number after `triangle(c)` is `c + 1` more: so after a
/// skip to `triangle(c)`, the next step yields `triangle(c + 1)`.
pub proof fn lemma_triangle_step(c: nat)
    ensures
        triangle(c + 1) == triangle(c) + c + 1,
        triangle(c) >= c,
{
    assert((c + 1) * (c + 2) == c * (c + 1) + 2 * (c + 1)) by (nonlinear_arith);
    assert(c * (c + 1) >= 2 * c || c == 0) by (nonlinear_arith);
}

/// The triangular numbers grow with the index.
pub proof fn lemma_triangle_grows(a: nat, b: nat)
    requires
        a <= b,
    ensures
        triangle(a) <= triangle(b),
    decreases b - a,
{
    if a < b {
        lemma_triangle_grows(a, (b - 1) as nat);
        lemma_triangle_step((b - 1) as nat);
    }
}

/// The closed form, computed without forming `m * (m + 1)` where that would
/// not fit: the even one of the two factors is halved first.
proof fn lemma_triangle_halved(m: nat)
    ensures
        m % 2 == 0 ==> triangle(m) == (m / 2) * (m + 1),
        m % 2 == 1 ==> triangle(m) == m * ((m + 1) / 2),
{
    if m % 2 == 0 {
        let h = m / 2;
        assert(m == 2 * h);
        assert(m * (m + 1) == 2 * (h * (m + 1))) by (nonlinear_arith)
            requires
                m == 2 * h,
        ;
    } else {
        let h = (m + 1) / 2;
        assert(m + 1 == 2 * h);
        assert(m * (m + 1) == 2 * (m * h)) by (nonlinear_arith)
            requires
                m + 1 == 2 * h,
        ;
    }
}

/// The triangular numbers 0, 1, 3, 6, 10, ...
pub struct Triangle {
    /// The number last yielded.
    last: u64,
    /// How many numbers were yielded so far.
    count: u64,
}

impl Triangle {
    /// How many numbers were yielded so far: the next one is
    /// `triangle(count)`.
    pub closed spec fn count(&self) -> nat {
        self.count as nat
    }

    /// The last number yielded is the triangular number before `count`.
    pub closed spec fn wf(&self) -> bool {
        &&& self.count == 0 ==> self.last == 0
        &&& self.count > 0 ==> self.last == triangle((self.count - 1) as nat)
    }

    /// A sequence that starts at `triangle(0)`.
    pub fn new() -> (r: Self)
        ensures
            r.wf(),
            r.count() == 0,
    {
        Triangle { last: 0, count: 0 }
    }

    /// The next triangular number, `None` where it does not fit in a `u64`.
    pub fn next(&mut self) -> (r: Option<u64>)
        requires
            old(self).wf(),
        ensures
            final(self).wf(),
            final(self).count() <= u64::MAX,
            r is None <==> triangle(old(self).count()) > u64::MAX,
            match r {
                Some(v) => v == triangle(old(self).count()) && final(self).count() == old(self).count()
                    + 1,
                None => final(self).count() == old(self).count(),
            },
    {
        proof {
            if self.count > 0 {
                lemma_triangle_step((self.count - 1) as nat);
            }
            lemma_triangle_step(self.count as nat);
            assert(triangle(0) == 0);
        }
        match self.last.checked_add(self.count) {
            Some(v) => {
                if self.count == u64::MAX {
                    return None;
                }
                self.last = v;
                self.count = self.count + 1;
                Some(v)
            },
            None => None,
        }
    }

    /// Skip `k` numbers and return the one after them: counted from the
    /// current position, not from the start. It is computed by the closed
    /// form, and the sequence goes on from there.
    pub fn skip(&mut self, k: usize) -> (r: Option<u64>)
        requires
            old(self).wf(),
        ensures
            final(self).wf(),
            r is None <==> triangle(old(self).count() + k as nat) > u64::MAX,
            match r {
                Some(v) => v == triangle(old(self).count() + k as nat) && final(self).count() == old(
                    self,
                ).count() + k + 1,
                None => final(self).count() == old(self).count(),
            },
    {
        let ghost m = self.count as nat + k as nat;
        proof {
            lemma_triangle_step(m);
            lemma_triangle_halved(m);
        }
        let m: u64 = match self.count.checked_add(k as u64) {
            Some(m) => m,
            None => {
                return None;
            },
        };
        if m == u64::MAX {
            return None;
        }
        let value = if m % 2 == 0 {
            (m / 2).checked_mul(m + 1)
        } else {
            m.checked_mul((m + 1) / 2)
        };
        match value {
            Some(v) => {
                self.last = v;
                self.count = m + 1;
                Some(v)
            },
            None => None,
        }
    }
}

/// One step of the Collatz map: halve an even number, else `3n + 1`.
pub open spec fn collatz_next(v: nat) -> nat {
    if v % 2 == 0 {
        v / 2
    } else {
        3 * v + 1
    }
}

/// The value after `k` steps of the Collatz map from `v`.
pub open spec fn collatz_iter(v: nat, k: nat) -> nat
    decreases k,
{
    if k == 0 {
        v
    } else {
        collatz_iter(collatz_next(v), (k - 1) as nat)
    }
}

/// The Collatz trajectory of a start value. It does not stop at 1 but goes
/// round 1, 4, 2, 1, ... for ever.
pub struct Collatz {
    n: u64,
}

impl Collatz {
    /// The value that the next step yields.
    pub closed spec fn current(&self) -> nat {
        self.n as nat
    }

    /// The trajectory of `n`.
    pub fn of(n: u64) -> (r: Self)
        ensures
            r.current() == n,
    {
        Collatz { n }
    }

    /// Yield the current value and step to the next; `None`, with nothing
    /// changed, where the next value would not fit in a `u64`.
    pub fn next(&mut self) -> (r: Option<u64>)
        ensures
            r is None <==> collatz_next(old(self).current()) > u64::MAX,
            match r {
                Some(v) => v == old(self).current() && final(self).current() == collatz_next(
                    old(self).current(),
                ),
                None => final(self).current() == old(self).current(),
            },
    {
        let out = self.n;
        if self.n % 2 == 0 {
            self.n = self.n / 2;
        } else {
            if self.n > (u64::MAX - 1) / 3 {
                return None;
            }
            self.n = 3 * self.n + 1;
        }
        Some(out)
    }

    /// The same trajectory, ended just after its first 1.
    pub fn cut_off(self) -> (r: CutOff)
        ensures
            r.current() == self.current(),
            !r.finished(),
    {
        CutOff { inner: self, finished: false }
    }
}

/// A Collatz trajectory that ends just after its first 1.
pub struct CutOff {
    inner: Collatz,
    finished: bool,
}

impl CutOff {
    /// The value that the next step yields, unless finished.
    pub closed spec fn current(&self) -> nat {
        self.inner.current()
    }

    /// A 1 has been yielded.
    pub closed spec fn finished(&self) -> bool {
        self.finished
    }

    /// Yield the current value, as the trajectory does, until a 1 has been
    /// yielded; `None` after that, and where the trajectory cannot go on.
    pub fn next(&mut self) -> (r: Option<u64>)
        ensures
            r is None <==> old(self).finished() || collatz_next(old(self).current()) > u64::MAX,
            match r {
                Some(v) => {
                    &&& v == old(self).current()
                    &&& final(self).current() == collatz_next(old(self).current())
                    &&& final(self).finished() == (v == 1)
                },
                None => final(self).current() == old(self).current() && final(self).finished()
                    == old(self).finished(),
            },
    {
        if self.finished {
            return None;
        }
        let r = self.inner.next();
        match r {
            Some(v) => {
                self.finished = v == 1;
                Some(v)
            },
            None => None,
        }
    }
}

} // verus!
