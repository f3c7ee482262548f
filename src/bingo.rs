//! Bingo on five-by-five boards: which board wins last, and its score.

use vstd::prelude::*;

verus! {

/// The side of a board.
pub const SIDE: usize = 5;

/// A board: 25 numbers, row by row.
pub struct Board {
    cells: Vec<u32>,
}

/// Row `r` of the board `c` is fully marked.
pub open spec fn row_marked(c: Seq<u32>, m: Seq<u32>, r: int) -> bool {
    forall|j: int| 0 <= j < 5 ==> m.contains(#[trigger] c[5 * r + j])
}

/// Column `k` of the board `c` is fully marked.
pub open spec fn column_marked(c: Seq<u32>, m: Seq<u32>, k: int) -> bool {
    forall|j: int| 0 <= j < 5 ==> m.contains(#[trigger] c[5 * j + k])
}

/// A row or a column of `c` is fully marked.
pub open spec fn bingo(c: Seq<u32>, m: Seq<u32>) -> bool {
    exists|i: int| 0 <= i < 5 && (#[trigger] row_marked(c, m, i) || column_marked(c, m, i))
}

/// The sum of the numbers of `c` that are not marked.
pub open spec fn unmarked_sum(c: Seq<u32>, m: Seq<u32>) -> nat
    decreases c.len(),
{
    if c.len() == 0 {
        0
    } else {
        unmarked_sum(c.drop_last(), m) + if m.contains(c.last()) {
            0
        } else {
            c.last() as nat
        }
    }
}

/// The score of a board that has just won: its unmarked sum times the last
/// number called.
pub open spec fn score_of(c: Seq<u32>, m: Seq<u32>) -> nat {
    unmarked_sum(c, m) * m.last() as nat
}

/// Neither row `k` nor column `k` is fully marked.
pub open spec fn open_line(c: Seq<u32>, m: Seq<u32>, k: int) -> bool {
    !row_marked(c, m, k) && !column_marked(c, m, k)
}

/// The five cells from `start`, `step` apart, were all called.
pub open spec fn line_all_called(c: Seq<u32>, m: Seq<u32>, start: int, step: int) -> bool {
    forall|j: int| 0 <= j < 5 ==> m.contains(#[trigger] c[start + step * j])
}

proof fn lemma_rows_and_columns(c: Seq<u32>, m: Seq<u32>, i: int)
    ensures
        line_all_called(c, m, 5 * i, 1) == row_marked(c, m, i),
        line_all_called(c, m, i, 5) == column_marked(c, m, i),
{
    assert forall|j: int| #[trigger] c[5 * i + 1 * j] == c[5 * i + j] by {}
    assert forall|j: int| #[trigger] c[i + 5 * j] == c[5 * j + i] by {}
    if line_all_called(c, m, 5 * i, 1) {
        assert forall|j: int| 0 <= j < 5 implies m.contains(#[trigger] c[5 * i + j]) by {
            assert(m.contains(c[5 * i + 1 * j]));
        }
    }
    if row_marked(c, m, i) {
        assert forall|j: int| 0 <= j < 5 implies m.contains(#[trigger] c[5 * i + 1 * j]) by {
            assert(m.contains(c[5 * i + j]));
        }
    }
    if line_all_called(c, m, i, 5) {
        assert forall|j: int| 0 <= j < 5 implies m.contains(#[trigger] c[5 * j + i]) by {
            assert(m.contains(c[i + 5 * j]));
        }
    }
    if column_marked(c, m, i) {
        assert forall|j: int| 0 <= j < 5 implies m.contains(#[trigger] c[i + 5 * j]) by {
            assert(m.contains(c[5 * j + i]));
        }
    }
}

/// Whether `x` was called.
fn is_called(marked: &[u32], x: u32) -> (r: bool)
    ensures
        r == marked@.contains(x),
{
    let mut i: usize = 0;
    while i < marked.len()
        invariant
            i <= marked@.len(),
            forall|j: int| 0 <= j < i ==> marked@[j] != x,
        decreases marked@.len() - i,
    {
        if marked[i] == x {
            assert(marked@[i as int] == x);
            return true;
        }
        i = i + 1;
    }
    false
}

impl View for Board {
    type V = Seq<u32>;

    closed spec fn view(&self) -> Seq<u32> {
        self.cells@
    }
}

impl Board {
    /// Twenty-five numbers.
    pub closed spec fn wf(&self) -> bool {
        self.cells@.len() == 25
    }

    /// The board of the first 25 numbers, row by row; `None` where there are
    /// fewer.
    pub fn from_numbers(nums: &[u32]) -> (r: Option<Board>)
        ensures
            nums@.len() < 25 ==> r is None,
            nums@.len() >= 25 ==> r is Some && r->Some_0.wf() && r->Some_0@ == nums@.subrange(0, 25),
    {
        if nums.len() < 25 {
            return None;
        }
        let mut cells: Vec<u32> = Vec::new();
        let mut i: usize = 0;
        while i < 25
            invariant
                nums@.len() >= 25,
                i <= 25,
                cells@ == nums@.subrange(0, i as int),
            decreases 25 - i,
        {
            cells.push(nums[i]);
            i = i + 1;
        }
        Some(Board { cells })
    }

    /// The sum of the numbers not called.
    pub fn sum_unmarked(&self, marked: &[u32]) -> (r: u64)
        requires
            self.wf(),
        ensures
            r == unmarked_sum(self@, marked@),
    {
        let mut sum: u64 = 0;
        let mut i: usize = 0;
        while i < 25
            invariant
                self.cells@.len() == 25,
                i <= 25,
                sum == unmarked_sum(self@.subrange(0, i as int), marked@),
                sum <= i * 4294967295,
            decreases 25 - i,
        {
            proof {
                let t = self@.subrange(0, i + 1);
                assert(t.drop_last() =~= self@.subrange(0, i as int));
            }
            let x = self.cells[i];
            if !is_called(marked, x) {
                sum = sum + x as u64;
            }
            i = i + 1;
        }
        assert(self@.subrange(0, 25) =~= self@);
        sum
    }

    /// The unmarked sum times the last number called.
    pub fn score(&self, marked: &[u32]) -> (r: u128)
        requires
            self.wf(),
            marked@.len() > 0,
        ensures
            r == score_of(self@, marked@),
    {
        let s = self.sum_unmarked(marked);
        let last = marked[marked.len() - 1];
        assert((s as u128) * (last as u128) <= u128::MAX) by (nonlinear_arith)
            requires
                s <= u64::MAX,
                last <= u32::MAX,
        ;
        (s as u128) * (last as u128)
    }

    /// Whether the five numbers from cell `start`, `step` apart, were all
    /// called.
    fn line_called(&self, marked: &[u32], start: usize, step: usize) -> (r: bool)
        requires
            self.wf(),
            start + 4 * step < 25,
        ensures
            r == line_all_called(self@, marked@, start as int, step as int),
    {
        let mut j: usize = 0;
        while j < 5
            invariant
                self.cells@.len() == 25,
                start + 4 * step < 25,
                j <= 5,
                forall|k: int| 0 <= k < j ==> marked@.contains(#[trigger] self@[start + step * k]),
            decreases 5 - j,
        {
            assert(start + step * j <= start + 4 * step) by (nonlinear_arith)
                requires
                    j < 5,
            ;
            if !is_called(marked, self.cells[start + step * j]) {
                assert(!marked@.contains(self@[start + step * j]));
                return false;
            }
            j = j + 1;
        }
        true
    }

    /// The score where a row or a column is fully called; `None` where none
    /// is.
    pub fn bingod(&self, marked: &[u32]) -> (r: Option<u128>)
        requires
            self.wf(),
            marked@.len() > 0,
        ensures
            r is Some <==> bingo(self@, marked@),
            r is Some ==> r->Some_0 == score_of(self@, marked@),
    {
        let mut i: usize = 0;
        while i < SIDE
            invariant
                self.cells@.len() == 25,
                marked@.len() > 0,
                i <= 5,
                forall|k: int| 0 <= k < i ==> #[trigger] open_line(self@, marked@, k),
            decreases 5 - i,
        {
            let row = self.line_called(marked, 5 * i, 1);
            let column = self.line_called(marked, i, 5);
            proof {
                lemma_rows_and_columns(self@, marked@, i as int);
            }
            if row || column {
                assert(row_marked(self@, marked@, i as int) || column_marked(self@, marked@, i as int));
                return Some(self.score(marked));
            }
            assert(open_line(self@, marked@, i as int));
            i = i + 1;
        }
        assert forall|k: int| 0 <= k < 5 implies !(#[trigger] row_marked(self@, marked@, k)
            || column_marked(self@, marked@, k)) by {
            assert(open_line(self@, marked@, k));
        }
        None
    }
}

/// The boards of `bs` without bingo on the numbers `m`, in order.
pub open spec fn still_playing(bs: Seq<Seq<u32>>, m: Seq<u32>) -> Seq<Seq<u32>>
    decreases bs.len(),
{
    if bs.len() == 0 {
        bs
    } else if bingo(bs.last(), m) {
        still_playing(bs.drop_last(), m)
    } else {
        still_playing(bs.drop_last(), m).push(bs.last())
    }
}

/// The score of the board that wins last, calling `nums[i]`, `nums[i + 1]`,
/// ... on the boards `bs` still in play: while more than one is in play the
/// winners drop out; the last one scores when it wins. `None` where the
/// numbers run out first, or the last boards all win at once.
pub open spec fn last_win(bs: Seq<Seq<u32>>, nums: Seq<u32>, i: nat) -> Option<nat>
    decreases nums.len() - i,
{
    if i >= nums.len() {
        None
    } else {
        let called = nums.subrange(0, i as int + 1);
        if bs.len() > 1 {
            last_win(still_playing(bs, called), nums, i + 1)
        } else if bs.len() == 1 {
            if bingo(bs[0], called) {
                Some(score_of(bs[0], called))
            } else {
                last_win(bs, nums, i + 1)
            }
        } else {
            None
        }
    }
}

/// The boards as their numbers.
pub open spec fn boards_view(bs: Seq<Board>) -> Seq<Seq<u32>> {
    bs.map_values(|b: Board| b@)
}

/// The score of the board that wins last: see `last_win`.
pub fn last_winner_score(entries: Vec<Board>, numbers: &[u32]) -> (r: Option<u128>)
    requires
        forall|k: int| 0 <= k < entries@.len() ==> (#[trigger] entries@[k]).wf(),
    ensures
        match r {
            Some(v) => last_win(boards_view(entries@), numbers@, 0) == Some(v as nat),
            None => last_win(boards_view(entries@), numbers@, 0) is None,
        },
{
    let ghost all = boards_view(entries@);
    let mut boards = entries;
    let mut called: Vec<u32> = Vec::new();
    let mut i: usize = 0;
    while i < numbers.len()
        invariant
            i <= numbers@.len(),
            called@ == numbers@.subrange(0, i as int),
            forall|k: int| 0 <= k < boards@.len() ==> (#[trigger] boards@[k]).wf(),
            last_win(all, numbers@, 0) == last_win(boards_view(boards@), numbers@, i as nat),
            all == boards_view(entries@),
        decreases numbers@.len() - i,
    {
        called.push(numbers[i]);
        assert(called@ == numbers@.subrange(0, i + 1));
        if boards.len() > 1 {
            let mut kept: Vec<Board> = Vec::new();
            let mut j: usize = 0;
            while j < boards.len()
                invariant
                    j <= boards@.len(),
                    called@.len() > 0,
                    forall|k: int| 0 <= k < boards@.len() ==> (#[trigger] boards@[k]).wf(),
                    forall|k: int| 0 <= k < kept@.len() ==> (#[trigger] kept@[k]).wf(),
                    boards_view(kept@) == still_playing(
                        boards_view(boards@.subrange(0, j as int)),
                        called@,
                    ),
                decreases boards@.len() - j,
            {
                proof {
                    let t = boards_view(boards@.subrange(0, j + 1));
                    assert(t.drop_last() =~= boards_view(boards@.subrange(0, j as int)));
                    assert(t.last() == boards@[j as int]@);
                }
                let b = &boards[j];
                let won = b.bingod(called.as_slice()).is_some();
                if !won {
                    let cells = b.cells.clone();
                    assert(cells@ == b.cells@);
                    kept.push(Board { cells });
                    assert(boards_view(kept@) =~= still_playing(
                        boards_view(boards@.subrange(0, j as int)),
                        called@,
                    ).push(boards@[j as int]@));
                }
                j = j + 1;
            }
            assert(boards@.subrange(0, boards@.len() as int) =~= boards@);
            boards = kept;
        } else if boards.len() == 1 {
            match boards[0].bingod(called.as_slice()) {
                Some(score) => {
                    assert(boards_view(boards@)[0] == boards@[0]@);
                    return Some(score);
                },
                None => {},
            }
        } else {
            return None;
        }
        i = i + 1;
    }
    None
}

} // verus!
