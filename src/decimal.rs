//! Reading ASCII text: finding a separator, and unsigned decimal numbers.

use vstd::prelude::*;

verus! {

/// `b` is an ASCII digit.
pub open spec fn is_digit(b: u8) -> bool {
    48 <= b <= 57
}

/// One or more ASCII digits.
pub open spec fn is_decimal(s: Seq<u8>) -> bool {
    s.len() > 0 && forall|i: int| 0 <= i < s.len() ==> is_digit(#[trigger] s[i])
}

/// The number that the digits `s` spell, most significant first.
pub open spec fn decimal_value(s: Seq<u8>) -> nat
    decreases s.len(),
{
    if s.len() == 0 {
        0
    } else {
        decimal_value(s.drop_last()) * 10 + (s.last() - 48) as nat
    }
}

/// The value of the digits `s` as a `u32`: `None` unless `s` is one or more
/// digits and their value fits.
pub open spec fn u32_of(s: Seq<u8>) -> Option<u32> {
    if is_decimal(s) && decimal_value(s) <= u32::MAX {
        Some(decimal_value(s) as u32)
    } else {
        None
    }
}

/// A longer run of digits is worth at least as much as its prefix.
proof fn lemma_value_grows(s: Seq<u8>, k: int)
    requires
        0 <= k <= s.len(),
        forall|i: int| 0 <= i < s.len() ==> is_digit(#[trigger] s[i]),
    ensures
        decimal_value(s) >= decimal_value(s.subrange(0, k)),
    decreases s.len() - k,
{
    if k < s.len() {
        lemma_value_grows(s, k + 1);
        let t = s.subrange(0, k + 1);
        assert(t.drop_last() =~= s.subrange(0, k));
        assert(decimal_value(t) == decimal_value(s.subrange(0, k)) * 10 + (t.last() - 48) as nat);
    } else {
        assert(s.subrange(0, k) =~= s);
    }
}

/// Read `s[start..end]` as a `u32`.
pub fn parse_u32(s: &[u8], start: usize, end: usize) -> (r: Option<u32>)
    requires
        start <= end <= s@.len(),
    ensures
        r == u32_of(s@.subrange(start as int, end as int)),
{
    let ghost t = s@.subrange(start as int, end as int);
    if start == end {
        return None;
    }
    let mut acc: u64 = 0;
    let mut i: usize = start;
    while i < end
        invariant
            start <= i <= end <= s@.len(),
            t == s@.subrange(start as int, end as int),
            forall|j: int| 0 <= j < i - start ==> is_digit(#[trigger] t[j]),
            acc == decimal_value(t.subrange(0, i - start)),
            acc <= u32::MAX,
        decreases end - i,
    {
        let b = s[i];
        if b < 48 || b > 57 {
            assert(!is_digit(t[i - start]));
            return None;
        }
        let ghost k = i - start;
        assert(t.subrange(0, k + 1).drop_last() =~= t.subrange(0, k));
        acc = acc * 10 + (b - 48) as u64;
        i = i + 1;
        if acc > u32::MAX as u64 {
            proof {
                if is_decimal(t) {
                    lemma_value_grows(t, i - start);
                }
            }
            return None;
        }
    }
    assert(t.subrange(0, t.len() as int) =~= t);
    Some(acc as u32)
}

/// Where `p` first occurs in `s` at or after `i`, wholly before `hi`; `hi`
/// where it does not.
pub open spec fn find_in(s: Seq<u8>, p: Seq<u8>, i: int, hi: int) -> int
    decreases hi - i,
{
    if i < 0 || i >= hi || i + p.len() > hi || i + p.len() > s.len() {
        hi
    } else if s.subrange(i, i + p.len()) == p {
        i
    } else {
        find_in(s, p, i + 1, hi)
    }
}

/// Whether `p` occurs in `s` at `i`.
fn occurs_at(s: &[u8], i: usize, p: &[u8]) -> (r: bool)
    requires
        i + p@.len() <= s@.len(),
    ensures
        r == (s@.subrange(i as int, i + p@.len()) == p@),
{
    let n = s.len();
    let mut k: usize = 0;
    while k < p.len()
        invariant
            n == s@.len(),
            i + p@.len() <= s@.len(),
            k <= p@.len(),
            forall|j: int| 0 <= j < k ==> s@[i + j] == #[trigger] p@[j],
        decreases p@.len() - k,
    {
        assert(i + k < s@.len());
        if s[i + k] != p[k] {
            assert(s@.subrange(i as int, i + p@.len())[k as int] != p@[k as int]);
            return false;
        }
        k = k + 1;
    }
    assert(s@.subrange(i as int, i + p@.len()) =~= p@);
    true
}

/// The first place of `p` in `s[lo..hi]`, or `hi`.
pub fn find(s: &[u8], lo: usize, hi: usize, p: &[u8]) -> (r: usize)
    requires
        lo <= hi <= s@.len(),
        p@.len() > 0,
    ensures
        r == find_in(s@, p@, lo as int, hi as int),
        lo <= r <= hi,
        r < hi ==> r + p@.len() <= hi,
{
    let mut i: usize = lo;
    while i < hi && p.len() <= hi - i
        invariant
            lo <= i <= hi <= s@.len(),
            p@.len() > 0,
            find_in(s@, p@, lo as int, hi as int) == find_in(s@, p@, i as int, hi as int),
        decreases hi - i,
    {
        if occurs_at(s, i, p) {
            return i;
        }
        i = i + 1;
    }
    hi
}

} // verus!
