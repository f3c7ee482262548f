//! The sum of the even Fibonacci numbers below four million.

use vstd::prelude::*;
use crate::sums::{even_fib_sum, even_fibonacci_sum, fib};

verus! {

/// The sum of the even Fibonacci numbers below 4,000,000.
pub fn solve() -> (r: u32)
    ensures
        exists|k: nat| {
            &&& fib(3 * k + 1) >= 4_000_000
            &&& forall|t: nat| t < k ==> #[trigger] fib(3 * t + 1) < 4_000_000
            &&& r == even_fib_sum(k)
        },
{
    even_fibonacci_sum(4_000_000)
}

} // verus!
