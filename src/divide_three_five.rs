//! The sum of all the multiples of 3 or 5 below 1000.

use vstd::prelude::*;
use crate::sums::{lemma_multiples_sum_bounds, multiples_sum, sum_of_multiples_below};

verus! {

/// The sum of the multiples of 3 or 5 below 1000.
pub fn solve() -> (r: u32)
    ensures
        r == multiples_sum(1000),
{
    proof {
        lemma_multiples_sum_bounds(1000, 1000);
    }
    sum_of_multiples_below(1000)
}

} // verus!
