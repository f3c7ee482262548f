//! The length of a Collatz chain, computed over a shared memo of the lengths
//! found before.

use std::collections::HashMap;
use vstd::prelude::*;
use crate::seqs::{collatz_iter, collatz_next};

verus! {

broadcast use vstd::std_specs::hash::group_hash_axioms;

/// A computation left the range of its integer type.
#[derive(Clone, Copy, Debug, PartialEq, Eq, Structural)]
pub struct Overflow;

/// The chain from `n` has `l` terms up to and including its first 1.
#[verifier::opaque]
pub open spec fn is_collatz_length(n: nat, l: nat) -> bool {
    &&& l >= 1
    &&& collatz_iter(n, (l - 1) as nat) == 1
    &&& forall|t: nat| t < l - 1 ==> #[trigger] collatz_iter(n, t) != 1
}

/// Each of the first `l` terms of the chain from `n` has a successor that
/// fits in a `u64`.
#[verifier::opaque]
pub open spec fn fits_along(n: nat, l: nat) -> bool {
    forall|t: nat| t < l ==> collatz_next(#[trigger] collatz_iter(n, t)) <= u64::MAX
}

/// Every length in the memo is the true chain length of its key.
pub open spec fn lengths_known(m: Map<u64, usize>) -> bool {
    forall|k: u64| #[trigger] m.contains_key(k) ==> is_collatz_length(k as nat, m[k] as nat)
}

/// Steps compose.
pub proof fn lemma_iter_add(v: nat, a: nat, b: nat)
    ensures
        collatz_iter(v, a + b) == collatz_iter(collatz_iter(v, a), b),
    decreases a,
{
    if a > 0 {
        lemma_iter_add(collatz_next(v), (a - 1) as nat, b);
        assert((a + b - 1) as nat == (a - 1) as nat + b);
    }
}

/// The trajectory of 4 goes round 4, 2, 1 for ever.
pub proof fn lemma_four_cycle(k: nat)
    ensures
        collatz_iter(4, k + 3) == collatz_iter(4, k),
{
    lemma_iter_add(4, 3, k);
    assert(collatz_iter(4, 3) == 4) by {
        assert(collatz_iter(1, 1) == collatz_iter(4, 0));
        assert(collatz_iter(2, 2) == collatz_iter(1, 1));
        assert(collatz_iter(4, 3) == collatz_iter(2, 2));
    }
    assert(3 + k == k + 3);
}

/// A chain has one length at most: two computations of it agree.
pub proof fn lemma_length_unique(n: nat, a: nat, b: nat)
    requires
        is_collatz_length(n, a),
        is_collatz_length(n, b),
    ensures
        a == b,
{
    reveal(is_collatz_length);
    if a < b {
        assert(collatz_iter(n, (a - 1) as nat) != 1);
    } else if b < a {
        assert(collatz_iter(n, (b - 1) as nat) != 1);
    }
}

/// The term `j` of a chain, before its first 1, starts a chain that much
/// shorter.
proof fn lemma_length_tail(n: nat, l: nat, j: nat)
    requires
        is_collatz_length(n, l),
        j < l,
    ensures
        is_collatz_length(collatz_iter(n, j), (l - j) as nat),
{
    reveal(is_collatz_length);
    let w = collatz_iter(n, j);
    lemma_iter_add(n, j, (l - j - 1) as nat);
    assert((j + (l - j - 1)) as nat == (l - 1) as nat);
    assert forall|t: nat| t < l - j - 1 implies #[trigger] collatz_iter(w, t) != 1 by {
        lemma_iter_add(n, j, t);
        assert(collatz_iter(n, j + t) != 1);
    }
}

/// A value `s` steps before a value of known length, with no 1 on the way,
/// has the length `s` more.
proof fn lemma_length_before(n: nat, a: nat, b: nat, l: nat)
    requires
        a <= b,
        forall|t: nat| t < b ==> #[trigger] collatz_iter(n, t) != 1,
        is_collatz_length(collatz_iter(n, b), l),
    ensures
        is_collatz_length(collatz_iter(n, a), (l + b - a) as nat),
{
    reveal(is_collatz_length);
    let w = collatz_iter(n, a);
    let u = collatz_iter(n, b);
    let s = (b - a) as nat;
    lemma_iter_add(n, a, s);
    lemma_iter_add(w, s, (l - 1) as nat);
    assert(collatz_iter(w, (l + s - 1) as nat) == 1) by {
        assert((s + (l - 1)) as nat == (l + s - 1) as nat);
    }
    assert forall|t: nat| t < l + s - 1 implies #[trigger] collatz_iter(w, t) != 1 by {
        if t < s {
            lemma_iter_add(n, a, t);
            assert(collatz_iter(n, a + t) != 1);
        } else {
            lemma_iter_add(w, s, (t - s) as nat);
            assert((s + (t - s)) as nat == t);
            assert(collatz_iter(u, (t - s) as nat) != 1);
        }
    }
}

/// The chain from 1 has the one term.
pub proof fn lemma_length_of_one()
    ensures
        is_collatz_length(1, 1),
{
    reveal(is_collatz_length);
}

/// A term other than 1, with no 1 before it, lies before the last term.
proof fn lemma_before_last(m: nat, j: nat, l: nat)
    requires
        is_collatz_length(m, l),
        forall|t: nat| t < j ==> #[trigger] collatz_iter(m, t) != 1,
        collatz_iter(m, j) != 1,
    ensures
        j < l - 1,
{
    reveal(is_collatz_length);
    if j >= l - 1 {
        assert(collatz_iter(m, (l - 1) as nat) == 1);
    }
}

proof fn lemma_fits_at(m: nat, l: nat, j: nat)
    requires
        fits_along(m, l),
        j < l,
    ensures
        collatz_next(collatz_iter(m, j)) <= u64::MAX,
{
    reveal(fits_along);
}

/// One move of the walk: a step from an even term, two from an odd one, and
/// no 1 passed on the way.
proof fn lemma_walk_step(m: nat, j: nat, v: nat)
    requires
        forall|t: nat| t < j ==> #[trigger] collatz_iter(m, t) != 1,
        collatz_iter(m, j) == v,
        v > 1,
    ensures
        v % 2 == 0 ==> collatz_iter(m, j + 1) == v / 2 && forall|t: nat|
            t < j + 1 ==> #[trigger] collatz_iter(m, t) != 1,
        v % 2 == 1 ==> collatz_iter(m, j + 2) == (3 * v + 1) / 2 && forall|t: nat|
            t < j + 2 ==> #[trigger] collatz_iter(m, t) != 1,
{
    lemma_iter_next(m, j);
    lemma_iter_next(m, j + 1);
    if v % 2 == 1 {
        assert forall|t: nat| t < j + 2 implies #[trigger] collatz_iter(m, t) != 1 by {
            if t == j + 1 {
            } else if t < j {
            }
        }
    } else {
        assert forall|t: nat| t < j + 1 implies #[trigger] collatz_iter(m, t) != 1 by {
            if t < j {
            }
        }
    }
}

/// The terms waiting for their length: each is the term `idx[i]` of the chain
/// from `m`, and its step count leads to the next one, the last to term `j`.
spec fn pending_chain(m: nat, p: Seq<(u64, usize)>, idx: Seq<nat>, j: nat) -> bool {
    &&& p.len() == idx.len()
    &&& p.len() > 0 ==> idx[0] == 0
    &&& forall|i: int|
        #![trigger idx[i]]
        0 <= i < idx.len() ==> {
            &&& p[i].0 as nat == collatz_iter(m, idx[i])
            &&& p[i].1 >= 1
            &&& i + 1 < idx.len() ==> idx[i] + p[i].1 == idx[i + 1]
            &&& i + 1 == idx.len() ==> idx[i] + p[i].1 == j
        }
}

proof fn lemma_pending_push(m: nat, p: Seq<(u64, usize)>, idx: Seq<nat>, j: nat, v: u64, s: usize)
    requires
        pending_chain(m, p, idx, j),
        v as nat == collatz_iter(m, j),
        p.len() == 0 ==> j == 0,
        s >= 1,
    ensures
        pending_chain(m, p.push((v, s)), idx.push(j), (j + s) as nat),
{
    let grown = p.push((v, s));
    let grown_idx = idx.push(j);
    assert forall|i: int|
        #![trigger grown_idx[i]]
        0 <= i < grown_idx.len() implies {
        &&& grown[i].0 as nat == collatz_iter(m, grown_idx[i])
        &&& grown[i].1 >= 1
        &&& i + 1 < grown_idx.len() ==> grown_idx[i] + grown[i].1 == grown_idx[i + 1]
        &&& i + 1 == grown_idx.len() ==> grown_idx[i] + grown[i].1 == j + s
    } by {
        if i < idx.len() {
            assert(grown_idx[i] == idx[i]);
            assert(grown[i] == p[i]);
        }
    }
    if p.len() > 0 {
        assert(grown_idx[0] == idx[0]);
    }
}

proof fn lemma_pending_pop(m: nat, p: Seq<(u64, usize)>, idx: Seq<nat>, j: nat)
    requires
        pending_chain(m, p, idx, j),
        p.len() > 0,
    ensures
        pending_chain(m, p.drop_last(), idx.drop_last(), idx.last()),
        p.last().0 as nat == collatz_iter(m, idx.last()),
        idx.last() + p.last().1 == j,
        p.last().1 >= 1,
        p.len() == 1 ==> idx.last() == 0,
{
    let k = idx.len() - 1;
    assert(idx[k] == idx.last());
    let rest = p.drop_last();
    let rest_idx = idx.drop_last();
    assert forall|i: int|
        #![trigger rest_idx[i]]
        0 <= i < rest_idx.len() implies {
        &&& rest[i].0 as nat == collatz_iter(m, rest_idx[i])
        &&& rest[i].1 >= 1
        &&& i + 1 < rest_idx.len() ==> rest_idx[i] + rest[i].1 == rest_idx[i + 1]
        &&& i + 1 == rest_idx.len() ==> rest_idx[i] + rest[i].1 == idx.last()
    } by {
        assert(rest_idx[i] == idx[i]);
        assert(rest[i] == p[i]);
        if i + 1 < rest_idx.len() {
            assert(rest_idx[i + 1] == idx[i + 1]);
        }
    }
    if rest_idx.len() > 0 {
        assert(rest_idx[0] == idx[0]);
    }
}

/// One more step is one more application of the map.
proof fn lemma_iter_next(v: nat, k: nat)
    ensures
        collatz_iter(v, k + 1) == collatz_next(collatz_iter(v, k)),
{
    lemma_iter_add(v, k, 1);
    let x = collatz_iter(v, k);
    assert(collatz_iter(x, 1) == collatz_iter(collatz_next(x), 0));
}

/// Give each waiting term its length, the last first, and record it.
fn settle(
    lengths: &mut HashMap<u64, usize>,
    waiting: Vec<(u64, usize)>,
    v: u64,
    base: usize,
    Ghost(m): Ghost<nat>,
    Ghost(idx): Ghost<Seq<nat>>,
    Ghost(j): Ghost<nat>,
) -> (r: Result<usize, Overflow>)
    requires
        m >= 1,
        m <= u64::MAX,
        pending_chain(m, waiting@, idx, j),
        forall|t: nat| t < j ==> #[trigger] collatz_iter(m, t) != 1,
        v as nat == collatz_iter(m, j),
        is_collatz_length(v as nat, base as nat),
        waiting@.len() == 0 ==> j == 0,
        old(lengths)@.contains_key(v),
        old(lengths)@[v] == base,
        lengths_known(old(lengths)@),
    ensures
        lengths_known(final(lengths)@),
        forall|k: u64| #[trigger]
            old(lengths)@.contains_key(k) ==> final(lengths)@.contains_key(k) && final(lengths)@[k]
                == old(lengths)@[k],
        waiting@.len() == 0 ==> r == Ok::<usize, Overflow>(base) && final(lengths)@ == old(lengths)@,
        r is Ok ==> is_collatz_length(m, r->Ok_0 as nat) && final(lengths)@.contains_key(m as u64)
            && final(lengths)@[m as u64] == r->Ok_0,
        forall|l: nat| #[trigger]
            is_collatz_length(m, l) && l < usize::MAX ==> r is Ok,
{
    if waiting.len() == 0 {
        return Ok(base);
    }
    let mut pending = waiting;
    let mut base = base;
    let mut u: u64 = v;
    let ghost mut u_idx: nat = j;
    let ghost mut idx = idx;
    while pending.len() > 0
        invariant
            pending_chain(m, pending@, idx, u_idx),
            waiting@.len() > 0,
            forall|t: nat| t < j ==> #[trigger] collatz_iter(m, t) != 1,
            u_idx <= j,
            u as nat == collatz_iter(m, u_idx),
            is_collatz_length(u as nat, base as nat),
            pending@.len() == 0 ==> u_idx == 0,
            lengths@.contains_key(u),
            lengths@[u] == base,
            lengths_known(lengths@),
            forall|k: u64| #[trigger]
                old(lengths)@.contains_key(k) ==> lengths@.contains_key(k) && lengths@[k]
                    == old(lengths)@[k],
        decreases pending@.len(),
    {
        proof {
            lemma_pending_pop(m, pending@, idx, u_idx);
        }
        let (w, s) = pending.pop().unwrap();
        let ghost w_idx = idx.last();
        proof {
            lemma_length_before(m, w_idx, u_idx, base as nat);
            idx = idx.drop_last();
        }
        if base > usize::MAX - s {
            proof {
                assert forall|l: nat| #[trigger]
                    is_collatz_length(m, l) && l < usize::MAX implies false by {
                    lemma_before_last(m, w_idx, l);
                    lemma_length_tail(m, l, w_idx);
                    lemma_length_unique(w as nat, (l - w_idx) as nat, (base + s) as nat);
                }
            }
            return Err(Overflow);
        }
        base = base + s;
        proof {
            if old(lengths)@.contains_key(w) {
                lemma_length_unique(w as nat, base as nat, old(lengths)@[w] as nat);
            }
        }
        lengths.insert(w, base);
        u = w;
        proof {
            u_idx = w_idx;
        }
    }
    Ok(base)
}

/// The number of terms of the Collatz chain from `n` up to and including its
/// first 1 (1 for `n == 1`). A length already in `lengths` is returned from
/// there; every length found on the way is added to it. An odd term is
/// followed at once by the half of `3n + 1`, two steps in one.
pub fn collatz_length(n: u64, lengths: &mut HashMap<u64, usize>) -> (r: Result<usize, Overflow>)
    requires
        n >= 1,
        lengths_known(old(lengths)@),
    ensures
        lengths_known(final(lengths)@),
        forall|k: u64| #[trigger]
            old(lengths)@.contains_key(k) ==> final(lengths)@.contains_key(k) && final(lengths)@[k]
                == old(lengths)@[k],
        old(lengths)@.contains_key(n) ==> r == Ok::<usize, Overflow>(old(lengths)@[n])
            && final(lengths)@ == old(lengths)@,
        r is Ok ==> is_collatz_length(n as nat, r->Ok_0 as nat) && final(lengths)@.contains_key(n)
            && final(lengths)@[n] == r->Ok_0,
        forall|l: nat| #[trigger]
            is_collatz_length(n as nat, l) && fits_along(n as nat, l) && l < usize::MAX ==> r is Ok,
{
    let ghost m = n as nat;
    // The terms still waiting for their length, each with the number of
    // steps to the term after it.
    let mut pending: Vec<(u64, usize)> = Vec::new();
    let ghost mut idx: Seq<nat> = Seq::empty();
    let mut v: u64 = n;
    let ghost mut j: nat = 0;
    let mut base: usize;
    loop
        invariant_except_break
            v as nat == collatz_iter(m, j),
        invariant
            n >= 1,
            m == n,
            v >= 1,
            lengths@ == old(lengths)@,
            lengths_known(lengths@),
            forall|t: nat| t < j ==> #[trigger] collatz_iter(m, t) != 1,
            pending_chain(m, pending@, idx, j),
            pending@.len() <= j,
            pending@.len() == 0 ==> j == 0,
            j > 0 ==> !old(lengths)@.contains_key(n),
        ensures
            v as nat == collatz_iter(m, j),
            is_collatz_length(v as nat, base as nat),
            pending_chain(m, pending@, idx, j),
            forall|t: nat| t < j ==> #[trigger] collatz_iter(m, t) != 1,
            pending@.len() == 0 ==> j == 0,
            j > 0 ==> !old(lengths)@.contains_key(n),
            lengths@ == old(lengths)@,
            old(lengths)@.contains_key(v) ==> base == old(lengths)@[v],
        decreases usize::MAX - pending@.len(),
    {
        match lengths.get(&v) {
            Some(l) => {
                base = *l;
                break;
            },
            None => {},
        }
        if v == 1 {
            proof {
                lemma_length_of_one();
            }
            base = 1;
            break;
        }
        proof {
            assert forall|l: nat| #[trigger] is_collatz_length(m, l) implies j < l - 1 by {
                lemma_before_last(m, j, l);
            }
        }
        if pending.len() == usize::MAX {
            return Err(Overflow);
        }
        let ghost j0 = j;
        proof {
            lemma_walk_step(m, j0, v as nat);
        }
        if v % 2 == 0 {
            proof {
                lemma_pending_push(m, pending@, idx, j, v, 1);
            }
            pending.push((v, 1));
            v = v / 2;
            proof {
                idx = idx.push(j0);
                j = j0 + 1;
            }
        } else {
            if v > (u64::MAX - 1) / 3 {
                proof {
                    assert forall|l: nat| #[trigger]
                        is_collatz_length(m, l) && fits_along(m, l) implies false by {
                        lemma_before_last(m, j, l);
                        lemma_fits_at(m, l, j);
                    }
                }
                return Err(Overflow);
            }
            proof {
                lemma_pending_push(m, pending@, idx, j, v, 2);
            }
            pending.push((v, 2));
            v = (3 * v + 1) / 2;
            proof {
                idx = idx.push(j0);
                j = j0 + 2;
            }
        }
    }
    proof {
        if old(lengths)@.contains_key(v) {
            lemma_length_unique(v as nat, base as nat, old(lengths)@[v] as nat);
        }
    }
    lengths.insert(v, base);
    proof {
        if old(lengths)@.contains_key(v) {
            assert(lengths@ =~= old(lengths)@);
        }
        assert forall|k: u64| #[trigger] old(lengths)@.contains_key(k) implies lengths@.contains_key(k)
            && lengths@[k] == old(lengths)@[k] by {
            if k == v {
                lemma_length_unique(v as nat, base as nat, old(lengths)@[v] as nat);
            }
        }
    }
    settle(lengths, pending, v, base, Ghost(m), Ghost(idx), Ghost(j))
}

} // verus!
