//! A power-consumption diagnostic: ratings found by filtering binary
//! numbers, bit by bit from the top, by the most or least common bit.

use vstd::prelude::*;

verus! {

/// Bit `b` of `v`, 0 or 1.
pub open spec fn bit_value(v: u32, b: u32) -> u8 {
    if (v >> b) & 1 == 1 {
        1
    } else {
        0
    }
}

/// Bit `bit` of `i`.
pub fn bit_of(i: u32, bit: u32) -> (r: u8)
    requires
        bit < 32,
    ensures
        r == bit_value(i, bit),
{
    if (i >> bit) & 1 == 1 {
        1
    } else {
        0
    }
}

/// How many of `s` have bit `b` set.
pub open spec fn ones(s: Seq<u32>, b: u32) -> nat
    decreases s.len(),
{
    if s.len() == 0 {
        0
    } else {
        ones(s.drop_last(), b) + if bit_value(s.last(), b) == 1 {
            1nat
        } else {
            0nat
        }
    }
}

/// 1 where at least half of `s` have bit `b` set, else 0.
pub open spec fn most_common(s: Seq<u32>, b: u32) -> u8 {
    if 2 * ones(s, b) >= s.len() {
        1
    } else {
        0
    }
}

/// The most common value of bit `bit` among `inputs`, 1 on a tie.
pub fn most_common_bit(inputs: &[u32], bit: u32) -> (r: u8)
    requires
        bit < 32,
    ensures
        r == most_common(inputs@, bit),
{
    let mut count: usize = 0;
    let mut i: usize = 0;
    while i < inputs.len()
        invariant
            bit < 32,
            i <= inputs@.len(),
            count == ones(inputs@.subrange(0, i as int), bit),
            count <= i,
        decreases inputs@.len() - i,
    {
        proof {
            let t = inputs@.subrange(0, i + 1);
            assert(t.drop_last() =~= inputs@.subrange(0, i as int));
        }
        if bit_of(inputs[i], bit) == 1 {
            count = count + 1;
        }
        i = i + 1;
    }
    assert(inputs@.subrange(0, inputs@.len() as int) =~= inputs@);
    if count >= inputs.len() - count {
        1
    } else {
        0
    }
}

/// The values of `s` whose bit `b` is `want`, in order.
pub open spec fn keep(s: Seq<u32>, b: u32, want: u8) -> Seq<u32>
    decreases s.len(),
{
    if s.len() == 0 {
        s
    } else if bit_value(s.last(), b) == want {
        keep(s.drop_last(), b, want).push(s.last())
    } else {
        keep(s.drop_last(), b, want)
    }
}

/// The bit value to keep: the most common one, or the other one.
pub open spec fn wanted(s: Seq<u32>, b: u32, most: bool) -> u8 {
    if most {
        most_common(s, b)
    } else {
        (1 - most_common(s, b)) as u8
    }
}

/// What is left of `s` after filtering on bits `b`, `b - 1`, ..., 0 in turn,
/// stopping as soon as one value is left.
pub open spec fn rating_from(s: Seq<u32>, b: int, most: bool) -> Seq<u32>
    decreases b + 1,
{
    if b < 0 || b >= 32 {
        s
    } else {
        let kept = keep(s, b as u32, wanted(s, b as u32, most));
        if kept.len() == 1 {
            kept
        } else {
            rating_from(kept, b - 1, most)
        }
    }
}

/// Filter `inputs` on the bits below `width`, from the top: see
/// `rating_from`. The rating is the first value left; `None` where none is.
pub fn rating(inputs: &[u32], width: u32, most: bool) -> (r: Option<u32>)
    requires
        width <= 32,
    ensures
        match r {
            Some(v) => {
                let left = rating_from(inputs@, width - 1, most);
                left.len() > 0 && v == left[0]
            },
            None => rating_from(inputs@, width - 1, most).len() == 0,
        },
{
    let mut left: Vec<u32> = Vec::new();
    let mut i: usize = 0;
    while i < inputs.len()
        invariant
            i <= inputs@.len(),
            left@ == inputs@.subrange(0, i as int),
        decreases inputs@.len() - i,
    {
        left.push(inputs[i]);
        i = i + 1;
    }
    assert(left@ =~= inputs@);
    let mut b: u32 = width;
    while b > 0
        invariant
            b <= width <= 32,
            rating_from(inputs@, width - 1, most) == rating_from(left@, b - 1, most),
        decreases b,
    {
        let bit = b - 1;
        let mcb = most_common_bit(left.as_slice(), bit);
        let want: u8 = if most {
            mcb
        } else {
            1 - mcb
        };
        let mut kept: Vec<u32> = Vec::new();
        let mut j: usize = 0;
        while j < left.len()
            invariant
                bit < 32,
                j <= left@.len(),
                kept@ == keep(left@.subrange(0, j as int), bit, want),
            decreases left@.len() - j,
        {
            proof {
                let t = left@.subrange(0, j + 1);
                assert(t.drop_last() =~= left@.subrange(0, j as int));
            }
            if bit_of(left[j], bit) == want {
                kept.push(left[j]);
            }
            j = j + 1;
        }
        assert(left@.subrange(0, left@.len() as int) =~= left@);
        left = kept;
        if left.len() == 1 {
            return Some(left[0]);
        }
        b = b - 1;
    }
    if left.len() == 0 {
        None
    } else {
        Some(left[0])
    }
}

/// The life-support rating: the product of the oxygen rating (most common
/// bits) and the CO2 rating (least common bits) of numbers `width` bits
/// wide; `None` where either rating has no value left.
pub fn life_support(inputs: &[u32], width: u32) -> (r: Option<u64>)
    requires
        width <= 32,
    ensures
        match r {
            Some(p) => {
                let oxygen = rating_from(inputs@, width - 1, true);
                let co2 = rating_from(inputs@, width - 1, false);
                oxygen.len() > 0 && co2.len() > 0 && p == oxygen[0] * co2[0]
            },
            None => rating_from(inputs@, width - 1, true).len() == 0 || rating_from(
                inputs@,
                width - 1,
                false,
            ).len() == 0,
        },
{
    let oxygen = rating(inputs, width, true);
    let co2 = rating(inputs, width, false);
    match (oxygen, co2) {
        (Some(o), Some(c)) => {
            assert((o as u64) * (c as u64) <= u64::MAX) by (nonlinear_arith)
                requires
                    o <= u32::MAX,
                    c <= u32::MAX,
            ;
            Some((o as u64) * (c as u64))
        },
        _ => None,
    }
}

} // verus!
