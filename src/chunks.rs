//! Lines of nested brackets `()`, `[]`, `{}`, `<>`: finding corrupted lines,
//! and scoring the brackets that complete the others.

use vstd::prelude::*;
use crate::sorting::{ascending, sorted_copy};

verus! {

/// Why a line could not be scored.
#[derive(Clone, Copy, Debug, PartialEq, Eq, Structural)]
pub enum ChunkError {
    /// A character that opens no chunk where one should open.
    InvalidOpeningDelim(u8),
    /// A chunk closed with the wrong bracket.
    UnexpectedChar { got: u8, expected: u8 },
    /// The score does not fit in a `u64`.
    Overflow,
}

/// The bracket that closes `open`, if `open` opens a chunk.
pub open spec fn closer(open: u8) -> Option<u8> {
    if open == 40 {
        Some(41u8)
    } else if open == 91 {
        Some(93u8)
    } else if open == 123 {
        Some(125u8)
    } else if open == 60 {
        Some(62u8)
    } else {
        None
    }
}

/// `c` is one of `)`, `]`, `}`, `>`.
pub open spec fn is_closer(c: u8) -> bool {
    c == 41 || c == 93 || c == 125 || c == 62
}

/// The points of a closing bracket: 1, 2, 3 and 4 for `)`, `]`, `}`, `>`.
pub open spec fn points(c: u8) -> nat {
    if c == 41 {
        1
    } else if c == 93 {
        2
    } else if c == 125 {
        3
    } else {
        4
    }
}

/// The score of the closers in `pending`, the last one first: five times the
/// score so far plus the points of each.
pub open spec fn completion_score(pending: Seq<u8>) -> nat
    decreases pending.len(),
{
    if pending.len() == 0 {
        0
    } else {
        completion_score(pending.drop_first()) * 5 + points(pending[0])
    }
}

/// Reading `s` from `i` with the closers `pending` still owed (the last one
/// innermost): an opening bracket owes its closer, the owed closer settles
/// it, any other closer is an error, except where nothing is owed, which
/// ends the line with score 0. At the end the owed closers are scored.
pub open spec fn scan(s: Seq<u8>, i: int, pending: Seq<u8>) -> Result<nat, ChunkError>
    decreases s.len() - i,
{
    if i >= s.len() || i < 0 {
        Ok(completion_score(pending))
    } else {
        let c = s[i];
        if is_closer(c) {
            if pending.len() == 0 {
                Ok(0)
            } else if pending.last() == c {
                scan(s, i + 1, pending.drop_last())
            } else {
                Err(ChunkError::UnexpectedChar { got: c, expected: pending.last() })
            }
        } else {
            match closer(c) {
                Some(e) => scan(s, i + 1, pending.push(e)),
                None => Err(ChunkError::InvalidOpeningDelim(c)),
            }
        }
    }
}

/// The points of the closing bracket `c`.
pub fn autocomplete_score(c: u8) -> (r: u64)
    requires
        is_closer(c),
    ensures
        r == points(c),
{
    if c == 41 {
        1
    } else if c == 93 {
        2
    } else if c == 125 {
        3
    } else {
        4
    }
}

/// Scoring more closers never gives less.
proof fn lemma_completion_grows(p: Seq<u8>, k: int)
    requires
        0 <= k <= p.len(),
    ensures
        completion_score(p.subrange(k, p.len() as int)) <= completion_score(p),
    decreases k,
{
    if k > 0 {
        lemma_completion_grows(p, k - 1);
        let t = p.subrange(k - 1, p.len() as int);
        assert(t.drop_first() =~= p.subrange(k, p.len() as int));
    } else {
        assert(p.subrange(0, p.len() as int) =~= p);
    }
}

/// The completion score of `line`, or why it has none.
pub fn parse_chunk(line: &[u8]) -> (r: Result<u64, ChunkError>)
    ensures
        match scan(line@, 0, Seq::empty()) {
            Ok(v) => if v <= u64::MAX {
                r == Ok::<u64, ChunkError>(v as u64)
            } else {
                r == Err::<u64, ChunkError>(ChunkError::Overflow)
            },
            Err(e) => r == Err::<u64, ChunkError>(e),
        },
{
    let mut pending: Vec<u8> = Vec::new();
    let mut i: usize = 0;
    while i < line.len()
        invariant
            i <= line@.len(),
            scan(line@, 0, Seq::empty()) == scan(line@, i as int, pending@),
            forall|j: int| 0 <= j < pending@.len() ==> is_closer(#[trigger] pending@[j]),
        decreases line@.len() - i,
    {
        let c = line[i];
        if c == 41 || c == 93 || c == 125 || c == 62 {
            if pending.len() == 0 {
                return Ok(0);
            }
            let e = pending[pending.len() - 1];
            if e != c {
                return Err(ChunkError::UnexpectedChar { got: c, expected: e });
            }
            pending.pop();
        } else {
            let e: u8 = if c == 40 {
                41
            } else if c == 91 {
                93
            } else if c == 123 {
                125
            } else if c == 60 {
                62
            } else {
                return Err(ChunkError::InvalidOpeningDelim(c));
            };
            pending.push(e);
        }
        i = i + 1;
    }
    let mut score: u64 = 0;
    let mut k: usize = pending.len();
    assert(pending@.subrange(k as int, pending@.len() as int).len() == 0);
    while k > 0
        invariant
            k <= pending@.len(),
            forall|j: int| 0 <= j < pending@.len() ==> is_closer(#[trigger] pending@[j]),
            score == completion_score(pending@.subrange(k as int, pending@.len() as int)),
            scan(line@, 0, Seq::empty()) == Ok::<nat, ChunkError>(completion_score(pending@)),
        decreases k,
    {
        k = k - 1;
        proof {
            let t = pending@.subrange(k as int, pending@.len() as int);
            assert(t.drop_first() =~= pending@.subrange(k + 1, pending@.len() as int));
        }
        let p = autocomplete_score(pending[k]);
        if score > (u64::MAX - p) / 5 {
            proof {
                lemma_completion_grows(pending@, k as int);
            }
            return Err(ChunkError::Overflow);
        }
        score = score * 5 + p;
    }
    assert(pending@.subrange(0, pending@.len() as int) =~= pending@);
    Ok(score)
}

/// The scores of the lines that are not corrupted, in order.
pub open spec fn completion_scores(lines: Seq<Vec<u8>>) -> Seq<u64>
    decreases lines.len(),
{
    if lines.len() == 0 {
        Seq::empty()
    } else {
        let rest = completion_scores(lines.drop_last());
        match scan(lines.last()@, 0, Seq::empty()) {
            Ok(v) => if v <= u64::MAX {
                rest.push(v as u64)
            } else {
                rest
            },
            Err(_) => rest,
        }
    }
}

/// The middle score of the lines that are not corrupted: the one at index
/// `n / 2` of the `n` scores in ascending order; `None` where there is none.
/// A line whose score does not fit in a `u64` counts as corrupted.
pub fn middle_completion_score(lines: &[Vec<u8>]) -> (r: Option<u64>)
    ensures
        completion_scores(lines@).len() == 0 ==> r is None,
        completion_scores(lines@).len() > 0 ==> exists|t: Seq<u64>|
            {
                &&& ascending(t)
                &&& t.to_multiset() == completion_scores(lines@).to_multiset()
                &&& r == Some(t[completion_scores(lines@).len() as int / 2])
            },
{
    broadcast use vstd::seq_lib::group_to_multiset_ensures;

    let mut scores: Vec<u64> = Vec::new();
    let mut i: usize = 0;
    while i < lines.len()
        invariant
            i <= lines@.len(),
            scores@ == completion_scores(lines@.subrange(0, i as int)),
        decreases lines@.len() - i,
    {
        proof {
            let t = lines@.subrange(0, i + 1);
            assert(t.drop_last() =~= lines@.subrange(0, i as int));
        }
        match parse_chunk(lines[i].as_slice()) {
            Ok(v) => scores.push(v),
            Err(_) => {},
        }
        i = i + 1;
    }
    assert(lines@.subrange(0, lines@.len() as int) =~= lines@);
    let sorted = sorted_copy(scores.as_slice());
    proof {
        sorted@.to_multiset_ensures();
        scores@.to_multiset_ensures();
    }
    if sorted.len() == 0 {
        return None;
    }
    Some(sorted[sorted.len() / 2])
}

} // verus!
