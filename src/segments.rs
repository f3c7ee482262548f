//! Seven-segment displays with scrambled wires: telling the ten digits apart
//! by how many wires they light and which contain which, then reading the
//! four-digit output.

use vstd::prelude::*;

verus! {

/// The wire of the letter `c`, `a` to `g`, as a bit number.
pub open spec fn wire_spec(c: u8) -> Option<u8> {
    if 97 <= c <= 103 {
        Some((c - 97) as u8)
    } else {
        None
    }
}

/// The wire of the letter `c`, `a` to `g`; `None` for any other byte.
pub fn wire_of(c: u8) -> (r: Option<u8>)
    ensures
        r == wire_spec(c),
{
    if 97 <= c && c <= 103 {
        Some(c - 97)
    } else {
        None
    }
}

/// The set of wires that the letters `s` name, one bit each.
pub open spec fn signal_of(s: Seq<u8>) -> Option<u8>
    decreases s.len(),
{
    if s.len() == 0 {
        Some(0u8)
    } else {
        match (signal_of(s.drop_last()), wire_spec(s.last())) {
            (Some(m), Some(b)) => Some(m | (1u8 << b)),
            _ => None,
        }
    }
}

/// The signal of the letters `s`; `None` where one is not `a` to `g`.
pub fn parse_signal(s: &[u8]) -> (r: Option<u8>)
    ensures
        r == signal_of(s@),
{
    let mut m: u8 = 0;
    let mut i: usize = 0;
    while i < s.len()
        invariant
            i <= s@.len(),
            signal_of(s@.subrange(0, i as int)) == Some(m),
        decreases s@.len() - i,
    {
        proof {
            let t = s@.subrange(0, i + 1);
            assert(t.drop_last() =~= s@.subrange(0, i as int));
        }
        match wire_of(s[i]) {
            Some(b) => {
                m = m | (1u8 << b);
            },
            None => {
                proof {
                    lemma_signal_none(s@, i as int);
                }
                return None;
            },
        }
        i = i + 1;
    }
    assert(s@.subrange(0, s@.len() as int) =~= s@);
    Some(m)
}

proof fn lemma_signal_none(s: Seq<u8>, i: int)
    requires
        0 <= i < s.len(),
        wire_spec(s[i]) is None,
    ensures
        signal_of(s) is None,
    decreases s.len(),
{
    if i < s.len() - 1 {
        lemma_signal_none(s.drop_last(), i);
    }
}

/// How many of the lowest `k` bits of `v` are set.
pub open spec fn bits_set(v: nat, k: nat) -> nat
    decreases k,
{
    if k == 0 {
        0
    } else {
        v % 2 + bits_set(v / 2, (k - 1) as nat)
    }
}

/// How many wires the signal lights.
pub fn wire_count(m: u8) -> (r: u32)
    ensures
        r == bits_set(m as nat, 8),
{
    let mut v: u8 = m;
    let mut count: u32 = 0;
    let mut k: u32 = 8;
    while k > 0
        invariant
            k <= 8,
            count + bits_set(v as nat, k as nat) == bits_set(m as nat, 8),
            count <= 8 - k,
        decreases k,
    {
        count = count + (v % 2) as u32;
        v = v / 2;
        k = k - 1;
    }
    count
}

/// A rule that picks out one digit: its size in wires, and a digit found
/// before that it must contain, or be contained in, if any.
pub struct Rule {
    pub digit: usize,
    pub size: u32,
    pub contains: Option<usize>,
    pub within: Option<usize>,
}

/// The rules in the order they are applied: 1, 4, 7 and 8 by size alone,
/// then 9 (six wires, containing 4), 3 (five, containing 1), 0 (six,
/// containing 1), 6 (the other six), 5 (five, within 6) and 2 (the last).
pub open spec fn rule(k: nat) -> Rule {
    if k == 0 {
        Rule { digit: 1, size: 2, contains: None, within: None }
    } else if k == 1 {
        Rule { digit: 4, size: 4, contains: None, within: None }
    } else if k == 2 {
        Rule { digit: 7, size: 3, contains: None, within: None }
    } else if k == 3 {
        Rule { digit: 8, size: 7, contains: None, within: None }
    } else if k == 4 {
        Rule { digit: 9, size: 6, contains: Some(4), within: None }
    } else if k == 5 {
        Rule { digit: 3, size: 5, contains: Some(1), within: None }
    } else if k == 6 {
        Rule { digit: 0, size: 6, contains: Some(1), within: None }
    } else if k == 7 {
        Rule { digit: 6, size: 6, contains: None, within: None }
    } else if k == 8 {
        Rule { digit: 5, size: 5, contains: None, within: Some(6) }
    } else {
        Rule { digit: 2, size: 5, contains: None, within: None }
    }
}

/// Rule `k` of `rule`.
fn rule_at(k: usize) -> (r: Rule)
    requires
        k < 10,
    ensures
        r == rule(k as nat),
{
    if k == 0 {
        Rule { digit: 1, size: 2, contains: None, within: None }
    } else if k == 1 {
        Rule { digit: 4, size: 4, contains: None, within: None }
    } else if k == 2 {
        Rule { digit: 7, size: 3, contains: None, within: None }
    } else if k == 3 {
        Rule { digit: 8, size: 7, contains: None, within: None }
    } else if k == 4 {
        Rule { digit: 9, size: 6, contains: Some(4), within: None }
    } else if k == 5 {
        Rule { digit: 3, size: 5, contains: Some(1), within: None }
    } else if k == 6 {
        Rule { digit: 0, size: 6, contains: Some(1), within: None }
    } else if k == 7 {
        Rule { digit: 6, size: 6, contains: None, within: None }
    } else if k == 8 {
        Rule { digit: 5, size: 5, contains: None, within: Some(6) }
    } else {
        Rule { digit: 2, size: 5, contains: None, within: None }
    }
}

/// Signal `m` meets rule `r`, given the digits found so far.
pub open spec fn meets(m: u8, r: Rule, digits: Seq<u8>) -> bool {
    &&& bits_set(m as nat, 8) == r.size
    &&& match r.contains {
        Some(d) => m & digits[d as int] == digits[d as int],
        None => true,
    }
    &&& match r.within {
        Some(d) => digits[d as int] & m == m,
        None => true,
    }
}

/// The first signal from index `i` on, not yet used, that meets rule `r`.
pub open spec fn first_meeting(s: Seq<u8>, used: Seq<bool>, r: Rule, digits: Seq<u8>, i: int) -> Option<int>
    decreases s.len() - i,
{
    if i < 0 || i >= s.len() {
        None
    } else if !used[i] && meets(s[i], r, digits) {
        Some(i)
    } else {
        first_meeting(s, used, r, digits, i + 1)
    }
}

/// The signals used and the digits found after the first `k` rules: the
/// digits by value, 0 where not found yet.
pub open spec fn deduce(s: Seq<u8>, k: nat) -> Option<(Seq<bool>, Seq<u8>)>
    decreases k,
{
    if k == 0 {
        Some((Seq::new(s.len(), |i: int| false), Seq::new(10, |i: int| 0u8)))
    } else {
        match deduce(s, (k - 1) as nat) {
            None => None,
            Some((used, digits)) => {
                let r = rule((k - 1) as nat);
                match first_meeting(s, used, r, digits, 0) {
                    None => None,
                    Some(i) => Some((used.update(i, true), digits.update(r.digit as int, s[i]))),
                }
            },
        }
    }
}

/// The digit that the signal `m` shows: the last of the ten that it equals.
pub open spec fn digit_of(digits: Seq<u8>, m: u8, d: int) -> Option<nat>
    decreases d + 1,
{
    if d < 0 {
        None
    } else if digits[d] == m {
        Some(d as nat)
    } else {
        digit_of(digits, m, d - 1)
    }
}

/// The number that the outputs show, digit by digit.
pub open spec fn reading(digits: Seq<u8>, outs: Seq<u8>) -> Option<nat>
    decreases outs.len(),
{
    if outs.len() == 0 {
        Some(0)
    } else {
        match (reading(digits, outs.drop_last()), digit_of(digits, outs.last(), 9)) {
            (Some(v), Some(d)) => Some(v * 10 + d),
            _ => None,
        }
    }
}

/// The rule refers only to digits among the ten.
pub open spec fn rule_ok(r: Rule) -> bool {
    &&& r.digit < 10
    &&& r.contains is Some ==> r.contains->Some_0 < 10
    &&& r.within is Some ==> r.within->Some_0 < 10
}

/// The first signal not yet used that meets rule `r`.
fn find_meeting(s: &[u8], used: &Vec<bool>, r: &Rule, digits: &Vec<u8>) -> (res: Option<usize>)
    requires
        used@.len() == s@.len(),
        digits@.len() == 10,
        rule_ok(*r),
    ensures
        match first_meeting(s@, used@, *r, digits@, 0) {
            Some(i) => res == Some(i as usize),
            None => res is None,
        },
{
    let mut i: usize = 0;
    while i < s.len()
        invariant
            used@.len() == s@.len(),
            digits@.len() == 10,
            rule_ok(*r),
            i <= s@.len(),
            first_meeting(s@, used@, *r, digits@, 0) == first_meeting(s@, used@, *r, digits@, i as int),
        decreases s@.len() - i,
    {
        let m = s[i];
        let fits = !used[i] && wire_count(m) == r.size && match r.contains {
            Some(d) => m & digits[d] == digits[d],
            None => true,
        } && match r.within {
            Some(d) => digits[d] & m == m,
            None => true,
        };
        if fits {
            return Some(i);
        }
        i = i + 1;
    }
    None
}

proof fn lemma_deduce_fails(s: Seq<u8>, j: nat, k: nat)
    requires
        j <= k,
        deduce(s, j) is None,
    ensures
        deduce(s, k) is None,
    decreases k - j,
{
    if j < k {
        lemma_deduce_fails(s, j, (k - 1) as nat);
    }
}

proof fn lemma_first_meeting(s: Seq<u8>, used: Seq<bool>, r: Rule, digits: Seq<u8>, i: int)
    requires
        0 <= i,
        first_meeting(s, used, r, digits, i) is Some,
    ensures
        i <= first_meeting(s, used, r, digits, i)->Some_0 < s.len(),
    decreases s.len() - i,
{
    if i < s.len() && !(!used[i] && meets(s[i], r, digits)) {
        lemma_first_meeting(s, used, r, digits, i + 1);
    }
}

proof fn lemma_digit_bound(digits: Seq<u8>, m: u8, d: int)
    requires
        digit_of(digits, m, d) is Some,
    ensures
        digit_of(digits, m, d)->Some_0 <= d,
    decreases d + 1,
{
    if d >= 0 && digits[d] != m {
        lemma_digit_bound(digits, m, d - 1);
    }
}

proof fn lemma_rule_ok(k: nat)
    requires
        k < 10,
    ensures
        rule_ok(rule(k)),
{
}

proof fn lemma_reading_grows(digits: Seq<u8>, outs: Seq<u8>, j: int)
    requires
        0 <= j <= outs.len(),
        reading(digits, outs) is Some,
    ensures
        reading(digits, outs.subrange(0, j)) is Some,
        reading(digits, outs.subrange(0, j))->Some_0 <= reading(digits, outs)->Some_0,
    decreases outs.len() - j,
{
    if j < outs.len() {
        let t = outs.subrange(0, j + 1);
        lemma_reading_grows(digits, outs, j + 1);
        assert(t.drop_last() =~= outs.subrange(0, j));
    } else {
        assert(outs.subrange(0, j) =~= outs);
    }
}

/// The digit that the signal `m` shows, as `digit_of` finds it.
fn digit_for(digits: &Vec<u8>, m: u8) -> (r: Option<u32>)
    requires
        digits@.len() == 10,
    ensures
        match digit_of(digits@, m, 9) {
            Some(d) => r == Some(d as u32),
            None => r is None,
        },
{
    let mut d: usize = 10;
    while d > 0
        invariant
            digits@.len() == 10,
            d <= 10,
            digit_of(digits@, m, 9) == digit_of(digits@, m, d - 1),
        decreases d,
    {
        if digits[d - 1] == m {
            return Some((d - 1) as u32);
        }
        d = d - 1;
    }
    None
}

/// The number that the outputs show, once the ten digits are told apart by
/// the inputs; `None` where a rule finds no signal, an output shows no
/// digit, or the number does not fit in a `u32`.
pub fn solve_line(inputs: &[u8], outputs: &[u8]) -> (r: Option<u32>)
    ensures
        match deduce(inputs@, 10) {
            None => r is None,
            Some((_, digits)) => match reading(digits, outputs@) {
                Some(v) => if v <= u32::MAX {
                    r == Some(v as u32)
                } else {
                    r is None
                },
                None => r is None,
            },
        },
{
    let mut used: Vec<bool> = Vec::new();
    while used.len() < inputs.len()
        invariant
            used@.len() <= inputs@.len(),
            forall|i: int| 0 <= i < used@.len() ==> !#[trigger] used@[i],
        decreases inputs@.len() - used@.len(),
    {
        used.push(false);
    }
    let mut digits: Vec<u8> = vec![0, 0, 0, 0, 0, 0, 0, 0, 0, 0];
    assert(used@ =~= Seq::new(inputs@.len(), |i: int| false));
    assert(digits@ =~= Seq::new(10, |i: int| 0u8));
    let mut k: usize = 0;
    while k < 10
        invariant
            k <= 10,
            deduce(inputs@, k as nat) == Some((used@, digits@)),
            used@.len() == inputs@.len(),
            digits@.len() == 10,
        decreases 10 - k,
    {
        let r = rule_at(k);
        proof {
            lemma_rule_ok(k as nat);
        }
        match find_meeting(inputs, &used, &r, &digits) {
            Some(i) => {
                proof {
                    lemma_first_meeting(inputs@, used@, r, digits@, 0);
                }
                used.set(i, true);
                digits.set(r.digit, inputs[i]);
            },
            None => {
                proof {
                    lemma_deduce_fails(inputs@, (k + 1) as nat, 10);
                }
                return None;
            },
        }
        k = k + 1;
    }
    let mut value: u32 = 0;
    let mut j: usize = 0;
    while j < outputs.len()
        invariant
            j <= outputs@.len(),
            deduce(inputs@, 10) == Some((used@, digits@)),
            digits@.len() == 10,
            reading(digits@, outputs@.subrange(0, j as int)) == Some(value as nat),
        decreases outputs@.len() - j,
    {
        proof {
            let t = outputs@.subrange(0, j + 1);
            assert(t.drop_last() =~= outputs@.subrange(0, j as int));
        }
        proof {
            if digit_of(digits@, outputs@[j as int], 9) is Some {
                lemma_digit_bound(digits@, outputs@[j as int], 9);
            }
        }
        match digit_for(&digits, outputs[j]) {
            Some(d) => {
                if value > (u32::MAX - d) / 10 {
                    proof {
                        if reading(digits@, outputs@) is Some {
                            lemma_reading_grows(digits@, outputs@, j + 1);
                        }
                    }
                    return None;
                }
                value = value * 10 + d;
            },
            None => {
                proof {
                    if reading(digits@, outputs@) is Some {
                        lemma_reading_grows(digits@, outputs@, j + 1);
                    }
                }
                return None;
            },
        }
        j = j + 1;
    }
    assert(outputs@.subrange(0, outputs@.len() as int) =~= outputs@);
    Some(value)
}

/// What one display shows: see `solve_line`.
pub open spec fn shown(inputs: Seq<u8>, outputs: Seq<u8>) -> Option<nat> {
    match deduce(inputs, 10) {
        None => None,
        Some((_, digits)) => reading(digits, outputs),
    }
}

/// The sum of what the first `k` displays show; `None` where one of them
/// shows nothing.
pub open spec fn shown_sum(displays: Seq<(Vec<u8>, Vec<u8>)>, k: nat) -> Option<nat>
    decreases k,
{
    if k == 0 {
        Some(0)
    } else {
        match (shown_sum(displays, (k - 1) as nat), shown(displays[k - 1].0@, displays[k - 1].1@)) {
            (Some(a), Some(b)) => Some(a + b),
            _ => None,
        }
    }
}

/// The sum of what the displays show, each given as its ten input signals
/// and its output signals; `None` where one shows nothing, or a number or
/// the sum does not fit in a `u32`.
pub fn sum_readings(displays: &[(Vec<u8>, Vec<u8>)]) -> (r: Option<u32>)
    ensures
        match r {
            Some(v) => shown_sum(displays@, displays@.len()) == Some(v as nat),
            None => match shown_sum(displays@, displays@.len()) {
                Some(v) => v > u32::MAX,
                None => true,
            },
        },
{
    let mut total: u32 = 0;
    let mut k: usize = 0;
    while k < displays.len()
        invariant
            k <= displays@.len(),
            shown_sum(displays@, k as nat) == Some(total as nat),
        decreases displays@.len() - k,
    {
        let (ins, outs) = &displays[k];
        match solve_line(ins.as_slice(), outs.as_slice()) {
            Some(v) => match total.checked_add(v) {
                Some(t) => total = t,
                None => {
                    proof {
                        lemma_shown_sum_grows(displays@, (k + 1) as nat, displays@.len());
                    }
                    return None;
                },
            },
            None => {
                proof {
                    lemma_shown_sum_grows(displays@, (k + 1) as nat, displays@.len());
                }
                return None;
            },
        }
        k = k + 1;
    }
    Some(total)
}

proof fn lemma_shown_sum_grows(ds: Seq<(Vec<u8>, Vec<u8>)>, a: nat, b: nat)
    requires
        a <= b,
    ensures
        shown_sum(ds, b) is Some ==> shown_sum(ds, a) is Some && shown_sum(ds, a)->Some_0 <= shown_sum(
            ds,
            b,
        )->Some_0,
    decreases b - a,
{
    if a < b {
        lemma_shown_sum_grows(ds, a, (b - 1) as nat);
    }
}

} // verus!
