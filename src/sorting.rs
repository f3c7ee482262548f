//! Sorting numbers into ascending order.

use vstd::prelude::*;

verus! {

/// `t` is in ascending order.
pub open spec fn ascending(t: Seq<u64>) -> bool {
    forall|a: int, b: int| 0 <= a < b < t.len() ==> #[trigger] t[a] <= #[trigger] t[b]
}

/// The values of `s`, in ascending order.
pub fn sorted_copy(s: &[u64]) -> (r: Vec<u64>)
    ensures
        ascending(r@),
        r@.to_multiset() == s@.to_multiset(),
{
    broadcast use vstd::seq_lib::group_to_multiset_ensures;

    let mut out: Vec<u64> = Vec::new();
    let mut i: usize = 0;
    while i < s.len()
        invariant
            i <= s@.len(),
            ascending(out@),
            out@.to_multiset() == s@.subrange(0, i as int).to_multiset(),
        decreases s@.len() - i,
    {
        let x = s[i];
        let mut j: usize = 0;
        while j < out.len() && out[j] <= x
            invariant
                j <= out@.len(),
                forall|k: int| 0 <= k < j ==> #[trigger] out@[k] <= x,
            decreases out@.len() - j,
        {
            j = j + 1;
        }
        let ghost before = out@;
        out.insert(j, x);
        proof {
            assert(s@.subrange(0, i + 1) =~= s@.subrange(0, i as int).push(x));
            assert(out@ == before.insert(j as int, x));
            vstd::seq_lib::to_multiset_insert(before, j as int, x);
            vstd::seq_lib::to_multiset_build(s@.subrange(0, i as int), x);
            assert(before.insert(j as int, x).to_multiset() == before.to_multiset().insert(x));
            assert(s@.subrange(0, i as int).push(x).to_multiset() == s@.subrange(
                0,
                i as int,
            ).to_multiset().insert(x));
            assert forall|a: int, b: int| 0 <= a < b < out@.len() implies #[trigger] out@[a]
                <= #[trigger] out@[b] by {
                if b < j {
                    assert(before[a] <= before[b]);
                } else if b == j {
                    assert(before[a] <= x);
                } else if a < j {
                    assert(before[a] <= x);
                    assert(before[b - 1] > x || before[a] <= before[b - 1]);
                    if j < before.len() {
                        assert(before[j as int] > x);
                        if b - 1 > j {
                            assert(before[j as int] <= before[b - 1]);
                        }
                    }
                } else if a == j {
                    assert(before[j as int] > x);
                    if b - 1 > j {
                        assert(before[j as int] <= before[b - 1]);
                    }
                } else {
                    assert(before[a - 1] <= before[b - 1]);
                }
            }
        }
        i = i + 1;
    }
    assert(s@.subrange(0, s@.len() as int) =~= s@);
    out
}

} // verus!
