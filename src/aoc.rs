//! Small puzzles: rising sums of depth readings, steering a submarine by
//! "direction size" steps, the points that straight lines "x1,y1 -> x2,y2"
//! of a grid cover, a school of lanternfish that doubles on a timer, and
//! the cheapest place to line up crabs.

use vstd::prelude::*;
use crate::decimal::{find, find_in, parse_u32, u32_of};
use crate::seqs::triangle;
use crate::sorting::{ascending, sorted_copy};

verus! {

/// A move of the submarine.
#[derive(Clone, Copy, Debug, PartialEq, Eq, Structural)]
pub enum Step {
    Up(u32),
    Down(u32),
    Forward(u32),
}

/// Why a step could not be read.
#[derive(Clone, Copy, Debug, PartialEq, Eq, Structural)]
pub enum StepError {
    /// No space between direction and size.
    StepParse,
    /// A direction other than `up`, `down` and `forward`.
    InvalidDirection,
    /// The size is not a `u32`.
    NotAnInt,
}

/// ASCII space.
pub const SPACE: u8 = 32;

/// The word `up`.
pub open spec fn word_up() -> Seq<u8> {
    seq![117u8, 112u8]
}

/// The word `down`.
pub open spec fn word_down() -> Seq<u8> {
    seq![100u8, 111u8, 119u8, 110u8]
}

/// The word `forward`.
pub open spec fn word_forward() -> Seq<u8> {
    seq![102u8, 111u8, 114u8, 119u8, 97u8, 114u8, 100u8]
}

/// The step that the text `s` spells: a direction, a space, a size.
pub open spec fn step_of(s: Seq<u8>) -> Result<Step, StepError> {
    let i = find_in(s, seq![SPACE], 0, s.len() as int);
    if i == s.len() {
        Err(StepError::StepParse)
    } else {
        let dir = s.subrange(0, i);
        match u32_of(s.subrange(i + 1, s.len() as int)) {
            None => Err(StepError::NotAnInt),
            Some(n) => if dir == word_up() {
                Ok(Step::Up(n))
            } else if dir == word_down() {
                Ok(Step::Down(n))
            } else if dir == word_forward() {
                Ok(Step::Forward(n))
            } else {
                Err(StepError::InvalidDirection)
            },
        }
    }
}

/// Whether `s[lo..hi]` is the word `w`.
fn is_word(s: &[u8], lo: usize, hi: usize, w: &Vec<u8>) -> (r: bool)
    requires
        lo <= hi <= s@.len(),
    ensures
        r == (s@.subrange(lo as int, hi as int) == w@),
{
    if hi - lo != w.len() {
        return false;
    }
    let mut k: usize = 0;
    while k < w.len()
        invariant
            lo <= hi <= s@.len(),
            hi - lo == w@.len(),
            k <= w@.len(),
            forall|j: int| 0 <= j < k ==> s@[lo + j] == #[trigger] w@[j],
        decreases w@.len() - k,
    {
        if s[lo + k] != w[k] {
            assert(s@.subrange(lo as int, hi as int)[k as int] != w@[k as int]);
            return false;
        }
        k = k + 1;
    }
    assert(s@.subrange(lo as int, hi as int) =~= w@);
    true
}

impl Step {
    /// Read a step such as `up 2`.
    pub fn parse(s: &[u8]) -> (r: Result<Step, StepError>)
        ensures
            r == step_of(s@),
    {
        let space = vec![SPACE];
        assert(space@ =~= seq![SPACE]);
        let i = find(s, 0, s.len(), space.as_slice());
        if i == s.len() {
            return Err(StepError::StepParse);
        }
        let n = match parse_u32(s, i + 1, s.len()) {
            Some(n) => n,
            None => {
                return Err(StepError::NotAnInt);
            },
        };
        let up: Vec<u8> = vec![117, 112];
        let down: Vec<u8> = vec![100, 111, 119, 110];
        let forward: Vec<u8> = vec![102, 111, 114, 119, 97, 114, 100];
        assert(up@ =~= word_up());
        assert(down@ =~= word_down());
        assert(forward@ =~= word_forward());
        if is_word(s, 0, i, &up) {
            Ok(Step::Up(n))
        } else if is_word(s, 0, i, &down) {
            Ok(Step::Down(n))
        } else if is_word(s, 0, i, &forward) {
            Ok(Step::Forward(n))
        } else {
            Err(StepError::InvalidDirection)
        }
    }
}

/// Where the submarine is, and where it points.
#[derive(Clone, Copy, Debug, PartialEq, Eq, Structural)]
pub struct Position {
    pub depth: u32,
    pub horizontal: u32,
    pub aim: u32,
}

/// The step can be taken from `p` without leaving the range of `u32`.
pub open spec fn step_fits(p: Position, step: Step) -> bool {
    match step {
        Step::Up(x) => p.aim >= x,
        Step::Down(x) => p.aim + x <= u32::MAX,
        Step::Forward(x) => p.horizontal + x <= u32::MAX && p.depth + p.aim * x <= u32::MAX,
    }
}

/// The position after `step`, where it fits.
pub open spec fn applied(p: Position, step: Step) -> Position {
    match step {
        Step::Up(x) => Position { aim: (p.aim - x) as u32, ..p },
        Step::Down(x) => Position { aim: (p.aim + x) as u32, ..p },
        Step::Forward(x) => Position {
            horizontal: (p.horizontal + x) as u32,
            depth: (p.depth + p.aim * x) as u32,
            ..p
        },
    }
}

/// Where `steps` lead from `p`; `None` where one of them does not fit.
pub open spec fn dive_from(p: Position, steps: Seq<Step>) -> Option<Position>
    decreases steps.len(),
{
    if steps.len() == 0 {
        Some(p)
    } else if step_fits(p, steps[0]) {
        dive_from(applied(p, steps[0]), steps.drop_first())
    } else {
        None
    }
}

/// The product of depth and horizontal distance after `steps` from the
/// start; `None` where a step or the product does not fit in a `u32`.
pub open spec fn dive_product(steps: Seq<Step>) -> Option<u32> {
    match dive_from(Position { depth: 0, horizontal: 0, aim: 0 }, steps) {
        Some(p) => if p.depth * p.horizontal <= u32::MAX {
            Some((p.depth * p.horizontal) as u32)
        } else {
            None
        },
        None => None,
    }
}

/// Take the steps in turn from the start and multiply depth by horizontal
/// distance.
pub fn dive(steps: &[Step]) -> (r: Option<u32>)
    ensures
        r == dive_product(steps@),
{
    let mut p = Position::new();
    let mut i: usize = 0;
    assert(steps@.subrange(0, steps@.len() as int) =~= steps@);
    while i < steps.len()
        invariant
            i <= steps@.len(),
            dive_from(Position { depth: 0, horizontal: 0, aim: 0 }, steps@) == dive_from(
                p,
                steps@.subrange(i as int, steps@.len() as int),
            ),
        decreases steps@.len() - i,
    {
        let ghost rest = steps@.subrange(i as int, steps@.len() as int);
        assert(rest.drop_first() =~= steps@.subrange(i + 1, steps@.len() as int));
        let step = steps[i];
        if !p.fits(step) {
            return None;
        }
        p = p.apply(step);
        i = i + 1;
    }
    assert(steps@.subrange(i as int, steps@.len() as int).len() == 0);
    match (p.depth as u64).checked_mul(p.horizontal as u64) {
        Some(v) => if v <= u32::MAX as u64 {
            Some(v as u32)
        } else {
            None
        },
        None => None,
    }
}

impl Position {
    /// The start: everything zero.
    pub fn new() -> (r: Position)
        ensures
            r.depth == 0 && r.horizontal == 0 && r.aim == 0,
    {
        Position { depth: 0, horizontal: 0, aim: 0 }
    }

    /// Whether `step` can be taken from here within `u32`.
    pub fn fits(&self, step: Step) -> (r: bool)
        ensures
            r == step_fits(*self, step),
    {
        match step {
            Step::Up(x) => self.aim >= x,
            Step::Down(x) => x <= u32::MAX - self.aim,
            Step::Forward(x) => {
                if x > u32::MAX - self.horizontal {
                    false
                } else {
                    match (self.aim as u64).checked_mul(x as u64) {
                        Some(d) => d <= (u32::MAX - self.depth) as u64,
                        None => false,
                    }
                }
            },
        }
    }

    /// Take a step: up and down turn the aim, forward moves ahead and sinks
    /// by the aim times the distance.
    pub fn apply(self, step: Step) -> (r: Position)
        requires
            step_fits(self, step),
        ensures
            r == applied(self, step),
    {
        let mut p = self;
        match step {
            Step::Up(x) => p.aim = p.aim - x,
            Step::Down(x) => p.aim = p.aim + x,
            Step::Forward(x) => {
                p.horizontal = p.horizontal + x;
                p.depth = p.depth + p.aim * x;
            },
        }
        p
    }

    /// Depth times horizontal distance.
    pub fn product(&self) -> (r: u32)
        requires
            self.depth * self.horizontal <= u32::MAX,
        ensures
            r == self.depth * self.horizontal,
    {
        self.depth * self.horizontal
    }
}

/// A line of the grid from `start` to `end`.
#[derive(Clone, Copy, Debug, PartialEq, Eq)]
pub struct Line {
    pub start: (u32, u32),
    pub end: (u32, u32),
}

/// Why a line could not be read.
#[derive(Clone, Copy, Debug, PartialEq, Eq, Structural)]
pub enum LineError {
    /// No ` -> ` between the two ends.
    MissingArrow,
    /// No `,` between the coordinates of an end.
    MissingComma,
    /// A coordinate is not a `u32`.
    NotAnInt,
}

/// `start` is not to the right of `end`.
pub open spec fn normalized(l: Line) -> bool {
    l.start.0 <= l.end.0
}

/// The points of a normalized line, from `start` to `end`: a vertical line
/// from its lower end, a horizontal one left to right, a diagonal one left
/// to right; none for any other line.
pub open spec fn covered(l: Line) -> Seq<(u32, u32)> {
    let (x0, y0) = l.start;
    let (x1, y1) = l.end;
    if x0 == x1 {
        let lo = if y0 < y1 { y0 } else { y1 };
        let hi = if y0 < y1 { y1 } else { y0 };
        Seq::new((hi - lo + 1) as nat, |i: int| (x0, (lo + i) as u32))
    } else if y0 == y1 {
        Seq::new((x1 - x0 + 1) as nat, |i: int| ((x0 + i) as u32, y0))
    } else if x1 - x0 == y1 - y0 {
        Seq::new((x1 - x0 + 1) as nat, |i: int| ((x0 + i) as u32, (y0 + i) as u32))
    } else if x1 - x0 == y0 - y1 {
        Seq::new((x1 - x0 + 1) as nat, |i: int| ((x0 + i) as u32, (y0 - i) as u32))
    } else {
        Seq::empty()
    }
}

/// ASCII comma.
pub const COMMA: u8 = 44;

/// The separator ` -> ` between the two ends of a line.
pub open spec fn arrow() -> Seq<u8> {
    seq![32u8, 45u8, 62u8, 32u8]
}

/// The line with its ends swapped where `end` lies left of `start`.
pub open spec fn with_ends_ordered(l: Line) -> Line {
    if l.end.0 < l.start.0 {
        Line { start: l.end, end: l.start }
    } else {
        l
    }
}

/// The line that the text `s` spells, `x1,y1 -> x2,y2`, its ends ordered.
pub open spec fn line_of(s: Seq<u8>) -> Result<Line, LineError> {
    let len = s.len() as int;
    let a = find_in(s, arrow(), 0, len);
    if a == len {
        Err(LineError::MissingArrow)
    } else {
        let c1 = find_in(s, seq![COMMA], 0, a);
        if c1 == a {
            Err(LineError::MissingComma)
        } else {
            match (u32_of(s.subrange(0, c1)), u32_of(s.subrange(c1 + 1, a))) {
                (Some(sx), Some(sy)) => {
                    let c2 = find_in(s, seq![COMMA], a + 4, len);
                    if c2 == len {
                        Err(LineError::MissingComma)
                    } else {
                        match (u32_of(s.subrange(a + 4, c2)), u32_of(s.subrange(c2 + 1, len))) {
                            (Some(ex), Some(ey)) => Ok(
                                with_ends_ordered(Line { start: (sx, sy), end: (ex, ey) }),
                            ),
                            _ => Err(LineError::NotAnInt),
                        }
                    }
                },
                _ => Err(LineError::NotAnInt),
            }
        }
    }
}

impl Line {
    /// Read a line such as `3,4 -> 5,6`, and order its ends.
    pub fn parse(s: &[u8]) -> (r: Result<Line, LineError>)
        ensures
            r == line_of(s@),
    {
        let len = s.len();
        let sep: Vec<u8> = vec![32, 45, 62, 32];
        let comma: Vec<u8> = vec![COMMA];
        assert(sep@ =~= arrow());
        assert(comma@ =~= seq![COMMA]);
        let a = find(s, 0, len, sep.as_slice());
        if a == len {
            return Err(LineError::MissingArrow);
        }
        let c1 = find(s, 0, a, comma.as_slice());
        if c1 == a {
            return Err(LineError::MissingComma);
        }
        let sx = parse_u32(s, 0, c1);
        let sy = parse_u32(s, c1 + 1, a);
        let (sx, sy) = match (sx, sy) {
            (Some(x), Some(y)) => (x, y),
            _ => {
                return Err(LineError::NotAnInt);
            },
        };
        let c2 = find(s, a + 4, len, comma.as_slice());
        if c2 == len {
            return Err(LineError::MissingComma);
        }
        let ex = parse_u32(s, a + 4, c2);
        let ey = parse_u32(s, c2 + 1, len);
        let (ex, ey) = match (ex, ey) {
            (Some(x), Some(y)) => (x, y),
            _ => {
                return Err(LineError::NotAnInt);
            },
        };
        let mut out = Line { start: (sx, sy), end: (ex, ey) };
        out.normalize();
        Ok(out)
    }

    /// Swap the ends where `end` lies left of `start`.
    pub fn normalize(&mut self)
        ensures
            old(self).end.0 < old(self).start.0 ==> final(self).start == old(self).end
                && final(self).end == old(self).start,
            old(self).end.0 >= old(self).start.0 ==> *final(self) == *old(self),
            normalized(*final(self)),
    {
        if self.end.0 < self.start.0 {
            let s = self.start;
            self.start = self.end;
            self.end = s;
        }
    }

    /// The line runs at 45 degrees: as far across as up or down.
    pub fn is_diagonal(&self) -> (r: bool)
        requires
            normalized(*self),
        ensures
            r == (self.end.0 - self.start.0 == self.end.1 - self.start.1 || self.end.0 - self.start.0
                == self.start.1 - self.end.1),
    {
        if self.end.1 > self.start.1 {
            self.end.0 - self.start.0 == self.end.1 - self.start.1
        } else {
            self.end.0 - self.start.0 == self.start.1 - self.end.1
        }
    }

    /// The grid points that the line covers, as `covered` lists them.
    pub fn covers(&self) -> (r: Vec<(u32, u32)>)
        requires
            normalized(*self),
        ensures
            r@ == covered(*self),
    {
        let (x0, y0) = self.start;
        let (x1, y1) = self.end;
        let mut out: Vec<(u32, u32)> = Vec::new();
        if x0 == x1 {
            let lo = if y0 < y1 { y0 } else { y1 };
            let hi = if y0 < y1 { y1 } else { y0 };
            let n: u64 = (hi - lo) as u64 + 1;
            let mut i: u64 = 0;
            while i < n
                invariant
                    n == hi - lo + 1,
                    i <= n,
                    out@ =~= Seq::new(i as nat, |k: int| (x0, (lo + k) as u32)),
                decreases n - i,
            {
                out.push((x0, (lo as u64 + i) as u32));
                i = i + 1;
            }
        } else if y0 == y1 || self.is_diagonal() {
            let n: u64 = (x1 - x0) as u64 + 1;
            let rising = y0 < y1;
            let flat = y0 == y1;
            let mut i: u64 = 0;
            while i < n
                invariant
                    x0 < x1,
                    n == x1 - x0 + 1,
                    i <= n,
                    rising == (y0 < y1),
                    flat == (y0 == y1),
                    flat || x1 - x0 == y1 - y0 || x1 - x0 == y0 - y1,
                    out@ =~= Seq::new(
                        i as nat,
                        |k: int|
                            (
                                (x0 + k) as u32,
                                (if flat {
                                    y0 as int
                                } else if rising {
                                    y0 + k
                                } else {
                                    y0 - k
                                }) as u32,
                            ),
                    ),
                decreases n - i,
            {
                let x = (x0 as u64 + i) as u32;
                let y = if flat {
                    y0
                } else if rising {
                    (y0 as u64 + i) as u32
                } else {
                    (y0 as u64 - i) as u32
                };
                out.push((x, y));
                i = i + 1;
            }
        }
        out
    }
}

/// The sum of the three readings from `i` on.
pub open spec fn window_sum(s: Seq<u64>, i: int) -> int {
    s[i] + s[i + 1] + s[i + 2]
}

/// How many of the first `k` windows of three readings are followed by a
/// window with a larger sum.
pub open spec fn window_increases(s: Seq<u64>, k: nat) -> nat
    decreases k,
{
    if k == 0 {
        0
    } else {
        window_increases(s, (k - 1) as nat) + if window_sum(s, k as int) > window_sum(
            s,
            k - 1,
        ) {
            1nat
        } else {
            0nat
        }
    }
}

/// How often the sum of a sliding window of three readings rises. Two
/// neighbouring windows share two readings, so it rises exactly where the
/// reading entering it is larger than the one leaving it.
pub fn count_window_increases(depths: &[u64]) -> (r: usize)
    ensures
        depths@.len() < 4 ==> r == 0,
        depths@.len() >= 4 ==> r == window_increases(depths@, (depths@.len() - 3) as nat),
{
    let n = depths.len();
    if n < 4 {
        return 0;
    }
    let mut count: usize = 0;
    let mut k: usize = 0;
    while k < n - 3
        invariant
            n == depths@.len(),
            n >= 4,
            k <= n - 3,
            count == window_increases(depths@, k as nat),
            count <= k,
        decreases n - 3 - k,
    {
        if depths[k + 3] > depths[k] {
            count = count + 1;
        }
        k = k + 1;
    }
    count
}

/// Days from a new fish to its first child, and between children after.
pub const NEW_CYCLE: usize = 9;

/// The counts of fish by days left to their next child, 0 to 8, after one
/// day: each timer runs down, and the fish at 0 start over at 6 and add as
/// many new fish at 8.
pub open spec fn school_day(c: Seq<nat>) -> Seq<nat> {
    seq![c[1], c[2], c[3], c[4], c[5], c[6], c[7] + c[0], c[8], c[0]]
}

/// The counts after `days` days.
pub open spec fn school_after(c: Seq<nat>, days: nat) -> Seq<nat>
    decreases days,
{
    if days == 0 {
        c
    } else {
        school_day(school_after(c, (days - 1) as nat))
    }
}

/// The number of fish.
pub open spec fn school_size(c: Seq<nat>) -> nat {
    c[0] + c[1] + c[2] + c[3] + c[4] + c[5] + c[6] + c[7] + c[8]
}

/// The counts of `timers` by value.
pub open spec fn timer_counts(timers: Seq<u64>, k: nat) -> Seq<nat>
    decreases k,
{
    if k == 0 {
        seq![0nat, 0, 0, 0, 0, 0, 0, 0, 0]
    } else {
        let c = timer_counts(timers, (k - 1) as nat);
        c.update(timers[k - 1] as int, c[timers[k - 1] as int] + 1)
    }
}

proof fn lemma_school_grows(c: Seq<nat>, days: nat)
    requires
        c.len() == 9,
    ensures
        school_after(c, days).len() == 9,
        school_size(school_after(c, days)) >= school_size(c),
    decreases days,
{
    if days > 0 {
        lemma_school_grows(c, (days - 1) as nat);
    }
}

proof fn lemma_school_monotone(c: Seq<nat>, a: nat, b: nat)
    requires
        c.len() == 9,
        a <= b,
    ensures
        school_size(school_after(c, a)) <= school_size(school_after(c, b)),
    decreases b - a,
{
    if a < b {
        lemma_school_monotone(c, a, (b - 1) as nat);
        lemma_school_grows(c, (b - 1) as nat);
    }
}

/// A school of lanternfish, counted by days left to their next child.
pub struct LanternfishSchool {
    counts: Vec<u64>,
}

impl View for LanternfishSchool {
    type V = Seq<nat>;

    closed spec fn view(&self) -> Seq<nat> {
        self.counts@.map_values(|v: u64| v as nat)
    }
}

impl LanternfishSchool {
    /// Nine counts, for the timers 0 to 8.
    pub closed spec fn wf(&self) -> bool {
        self.counts@.len() == NEW_CYCLE
    }

    /// The school of fish with the given timers, each from 0 to 8.
    pub fn new(timers: &[u64]) -> (r: Self)
        requires
            forall|i: int| 0 <= i < timers@.len() ==> #[trigger] timers@[i] < 9,
        ensures
            r.wf(),
            r@.len() == 9,
            r@ == timer_counts(timers@, timers@.len()),
    {
        let mut counts: Vec<u64> = vec![0, 0, 0, 0, 0, 0, 0, 0, 0];
        let mut k: usize = 0;
        assert(counts@.map_values(|v: u64| v as nat) =~= timer_counts(timers@, 0));
        while k < timers.len()
            invariant
                k <= timers@.len(),
                counts@.len() == 9,
                forall|i: int| 0 <= i < timers@.len() ==> #[trigger] timers@[i] < 9,
                counts@.map_values(|v: u64| v as nat) == timer_counts(timers@, k as nat),
                forall|i: int| 0 <= i < 9 ==> #[trigger] counts@[i] <= k,
            decreases timers@.len() - k,
        {
            let t = timers[k] as usize;
            counts.set(t, counts[t] + 1);
            k = k + 1;
            assert(counts@.map_values(|v: u64| v as nat) =~= timer_counts(timers@, k as nat));
        }
        LanternfishSchool { counts }
    }

    /// One day: see `school_day`. `false`, with nothing changed, where a
    /// count would not fit in a `u64`.
    pub fn update(&mut self) -> (r: bool)
        requires
            old(self).wf(),
        ensures
            final(self).wf(),
            r ==> final(self)@ == school_day(old(self)@),
            !r ==> final(self)@ == old(self)@ && old(self)@[7] + old(self)@[0] > u64::MAX,
    {
        let zero = self.counts[0];
        let seven = self.counts[7];
        if seven > u64::MAX - zero {
            return false;
        }
        let mut next: Vec<u64> = Vec::new();
        let mut i: usize = 1;
        while i < NEW_CYCLE
            invariant
                self.counts@.len() == 9,
                1 <= i <= 9,
                next@.len() == i - 1,
                forall|j: int| 0 <= j < i - 1 ==> #[trigger] next@[j] == self.counts@[j + 1],
            decreases NEW_CYCLE - i,
        {
            next.push(self.counts[i]);
            i = i + 1;
        }
        next.push(zero);
        next.set(6, seven + zero);
        self.counts = next;
        assert(self@ =~= school_day(old(self)@));
        true
    }

    /// The number of fish; `None` where it does not fit in a `u64`.
    pub fn sum(&self) -> (r: Option<u64>)
        requires
            self.wf(),
        ensures
            match r {
                Some(n) => n == school_size(self@),
                None => school_size(self@) > u64::MAX,
            },
    {
        proof {
            reveal_with_fuel(count_prefix, 10);
            assert(school_size(self@) == count_prefix(self@, 9));
        }
        let mut total: u64 = 0;
        let mut i: usize = 0;
        while i < NEW_CYCLE
            invariant
                self.counts@.len() == 9,
                i <= 9,
                total == count_prefix(self@, i as nat),
                school_size(self@) == count_prefix(self@, 9),
            decreases NEW_CYCLE - i,
        {
            assert(self@[i as int] == self.counts@[i as int]);
            match total.checked_add(self.counts[i]) {
                Some(t) => total = t,
                None => {
                    proof {
                        lemma_count_prefix_grows(self@, (i + 1) as nat, 9);
                    }
                    return None;
                },
            }
            i = i + 1;
        }
        Some(total)
    }
}

/// The sum of the first `i` counts.
pub open spec fn count_prefix(c: Seq<nat>, i: nat) -> nat
    decreases i,
{
    if i == 0 {
        0
    } else {
        count_prefix(c, (i - 1) as nat) + c[i - 1]
    }
}

proof fn lemma_count_prefix_grows(c: Seq<nat>, a: nat, b: nat)
    requires
        a <= b,
    ensures
        count_prefix(c, a) <= count_prefix(c, b),
    decreases b - a,
{
    if a < b {
        lemma_count_prefix_grows(c, a, (b - 1) as nat);
    }
}

/// The number of lanternfish after `days` days from fish with the given
/// timers; `None` where it does not fit in a `u64`.
pub fn lanternfish_after(timers: &[u64], days: u64) -> (r: Option<u64>)
    requires
        forall|i: int| 0 <= i < timers@.len() ==> #[trigger] timers@[i] < 9,
    ensures
        match r {
            Some(n) => n == school_size(
                school_after(timer_counts(timers@, timers@.len()), days as nat),
            ),
            None => school_size(school_after(timer_counts(timers@, timers@.len()), days as nat))
                > u64::MAX,
        },
{
    let mut school = LanternfishSchool::new(timers);
    let ghost start = school@;
    let mut d: u64 = 0;
    while d < days
        invariant
            d <= days,
            school.wf(),
            start.len() == 9,
            start == timer_counts(timers@, timers@.len()),
            school@ == school_after(start, d as nat),
        decreases days - d,
    {
        if !school.update() {
            proof {
                let c = school_after(start, d as nat);
                lemma_school_grows(start, d as nat);
                assert(school_size(school_after(start, (d + 1) as nat)) >= c[7] + c[0]);
                lemma_school_monotone(start, (d + 1) as nat, days as nat);
            }
            return None;
        }
        d = d + 1;
    }
    school.sum()
}

/// The smallest of the first `k` positions.
pub open spec fn min_of(s: Seq<u32>, k: nat) -> u32
    decreases k,
{
    if k <= 1 {
        s[0]
    } else if s[k - 1] < min_of(s, (k - 1) as nat) {
        s[k - 1]
    } else {
        min_of(s, (k - 1) as nat)
    }
}

/// The largest of the first `k` positions.
pub open spec fn max_of(s: Seq<u32>, k: nat) -> u32
    decreases k,
{
    if k <= 1 {
        s[0]
    } else if s[k - 1] > max_of(s, (k - 1) as nat) {
        s[k - 1]
    } else {
        max_of(s, (k - 1) as nat)
    }
}

/// The distance between `a` and `b`.
pub open spec fn distance(a: nat, b: nat) -> nat {
    if a > b {
        (a - b) as nat
    } else {
        (b - a) as nat
    }
}

/// The fuel to move the first `k` crabs to `n`: a move of `d` steps costs
/// `1 + 2 + ... + d`.
pub open spec fn fuel_cost(s: Seq<u32>, n: nat, k: nat) -> nat
    decreases k,
{
    if k == 0 {
        0
    } else {
        fuel_cost(s, n, (k - 1) as nat) + triangle(distance(n, s[k - 1] as nat))
    }
}

proof fn lemma_fuel_grows(s: Seq<u32>, n: nat, a: nat, b: nat)
    requires
        a <= b,
    ensures
        fuel_cost(s, n, a) <= fuel_cost(s, n, b),
    decreases b - a,
{
    if a < b {
        lemma_fuel_grows(s, n, a, (b - 1) as nat);
    }
}

/// The fuel to move every crab to `n`; `None` where it does not fit in a
/// `u64`.
pub fn alignment_cost(positions: &[u32], n: u32) -> (r: Option<u64>)
    ensures
        match r {
            Some(c) => c == fuel_cost(positions@, n as nat, positions@.len()),
            None => fuel_cost(positions@, n as nat, positions@.len()) > u64::MAX,
        },
{
    let mut total: u64 = 0;
    let mut k: usize = 0;
    while k < positions.len()
        invariant
            k <= positions@.len(),
            total == fuel_cost(positions@, n as nat, k as nat),
        decreases positions@.len() - k,
    {
        let m = positions[k];
        let d: u64 = if n > m {
            (n - m) as u64
        } else {
            (m - n) as u64
        };
        assert(d * (d + 1) <= 4294967295 * 4294967296) by (nonlinear_arith)
            requires
                d <= 4294967295,
        ;
        let fuel: u64 = d * (d + 1) / 2;
        match total.checked_add(fuel) {
            Some(t) => total = t,
            None => {
                proof {
                    lemma_fuel_grows(positions@, n as nat, (k + 1) as nat, positions@.len());
                }
                return None;
            },
        }
        k = k + 1;
    }
    Some(total)
}

/// The least fuel that lines up all crabs at one position between the
/// leftmost and the rightmost crab; `None` where there is no crab, or no such
/// position has a cost that fits in a `u64`.
pub fn cheapest_alignment(positions: &[u32]) -> (r: Option<u64>)
    ensures
        positions@.len() == 0 ==> r is None,
        positions@.len() > 0 ==> {
            let k = positions@.len();
            let lo = min_of(positions@, k) as nat;
            let hi = max_of(positions@, k) as nat;
            match r {
                Some(c) => {
                    &&& exists|n: nat| lo <= n <= hi && c == #[trigger] fuel_cost(positions@, n, k)
                    &&& forall|n: nat| lo <= n <= hi ==> c <= #[trigger] fuel_cost(positions@, n, k)
                },
                None => forall|n: nat| lo <= n <= hi ==> #[trigger] fuel_cost(positions@, n, k)
                    > u64::MAX,
            }
        },
{
    let len = positions.len();
    if len == 0 {
        return None;
    }
    let mut lo = positions[0];
    let mut hi = positions[0];
    let mut k: usize = 1;
    while k < len
        invariant
            len == positions@.len(),
            1 <= k <= len,
            lo == min_of(positions@, k as nat),
            hi == max_of(positions@, k as nat),
        decreases len - k,
    {
        if positions[k] < lo {
            lo = positions[k];
        }
        if positions[k] > hi {
            hi = positions[k];
        }
        k = k + 1;
    }
    let ghost all = positions@.len();
    let mut best: Option<u64> = None;
    let mut n: u32 = lo;
    loop
        invariant
            lo <= n,
            all == positions@.len(),
            all > 0,
            lo == min_of(positions@, all),
            hi == max_of(positions@, all),
            lo <= hi,
            n <= hi,
            match best {
                Some(c) => {
                    &&& exists|m: nat| lo <= m < n && c == #[trigger] fuel_cost(positions@, m, all)
                    &&& forall|m: nat| lo <= m < n ==> c <= #[trigger] fuel_cost(positions@, m, all)
                },
                None => forall|m: nat| lo <= m < n ==> #[trigger] fuel_cost(positions@, m, all)
                    > u64::MAX,
            },
        decreases hi - n,
    {
        let cost = alignment_cost(positions, n);
        let ghost before = best;
        match cost {
            Some(c) => {
                let better = match best {
                    Some(b) => c < b,
                    None => true,
                };
                if better {
                    best = Some(c);
                }
            },
            None => {},
        }
        proof {
            match best {
                Some(c) => {
                    assert forall|m: nat| lo <= m < n + 1 implies c <= #[trigger] fuel_cost(
                        positions@,
                        m,
                        all,
                    ) by {
                        if m == n {
                        }
                    }
                    if before == best {
                        let w = choose|m: nat| lo <= m < n && c == #[trigger] fuel_cost(positions@, m, all);
                        assert(lo <= w < n + 1 && c == fuel_cost(positions@, w, all));
                    } else {
                        assert(lo <= n < n + 1 && c == fuel_cost(positions@, n as nat, all));
                    }
                },
                None => {},
            }
        }
        if n == hi {
            return best;
        }
        n = n + 1;
    }
}

/// A grid point as one number: `x` in the high half, `y` in the low.
pub open spec fn point_key(p: (u32, u32)) -> u64 {
    (p.0 as nat * 4294967296 + p.1 as nat) as u64
}

/// The keys of the points that the lines cover, line by line.
pub open spec fn covered_keys(lines: Seq<Line>) -> Seq<u64>
    decreases lines.len(),
{
    if lines.len() == 0 {
        Seq::empty()
    } else {
        covered_keys(lines.drop_last()) + covered(lines.last()).map_values(
            |p: (u32, u32)| point_key(p),
        )
    }
}

/// How many values of the ascending `t` occur at least twice: the number of
/// runs of equal values longer than one.
pub open spec fn repeated_values(t: Seq<u64>) -> nat
    decreases t.len(),
{
    if t.len() < 2 {
        0
    } else {
        let n = t.len() as int;
        repeated_values(t.drop_last()) + if t[n - 1] == t[n - 2] && (n < 3 || t[n - 3] != t[n - 2]) {
            1nat
        } else {
            0nat
        }
    }
}

/// How many grid points two or more of the lines cover: the values that
/// repeat among the keys of the covered points, in ascending order.
pub fn count_overlaps(lines: &[Line]) -> (r: usize)
    requires
        forall|i: int| 0 <= i < lines@.len() ==> normalized(#[trigger] lines@[i]),
    ensures
        exists|t: Seq<u64>|
            {
                &&& ascending(t)
                &&& t.to_multiset() == covered_keys(lines@).to_multiset()
                &&& r == repeated_values(t)
            },
{
    let mut keys: Vec<u64> = Vec::new();
    let mut i: usize = 0;
    while i < lines.len()
        invariant
            i <= lines@.len(),
            forall|k: int| 0 <= k < lines@.len() ==> normalized(#[trigger] lines@[k]),
            keys@ == covered_keys(lines@.subrange(0, i as int)),
        decreases lines@.len() - i,
    {
        let points = lines[i].covers();
        let ghost before = keys@;
        let mut j: usize = 0;
        while j < points.len()
            invariant
                j <= points@.len(),
                keys@ == before + points@.subrange(0, j as int).map_values(
                    |p: (u32, u32)| point_key(p),
                ),
            decreases points@.len() - j,
        {
            let (x, y) = points[j];
            let key = (x as u64) * 4294967296 + y as u64;
            keys.push(key);
            j = j + 1;
            assert(keys@ =~= before + points@.subrange(0, j as int).map_values(
                |p: (u32, u32)| point_key(p),
            ));
        }
        proof {
            let t = lines@.subrange(0, i + 1);
            assert(t.drop_last() =~= lines@.subrange(0, i as int));
            assert(points@.subrange(0, points@.len() as int) =~= points@);
        }
        i = i + 1;
    }
    assert(lines@.subrange(0, lines@.len() as int) =~= lines@);
    let sorted = sorted_copy(keys.as_slice());
    let n = sorted.len();
    let mut count: usize = 0;
    let mut k: usize = 1;
    if n < 2 {
        return 0;
    }
    while k < n
        invariant
            n == sorted@.len(),
            1 <= k <= n,
            count == repeated_values(sorted@.subrange(0, k as int)),
            count <= k,
        decreases n - k,
    {
        proof {
            let t = sorted@.subrange(0, k + 1);
            assert(t.drop_last() =~= sorted@.subrange(0, k as int));
        }
        if sorted[k] == sorted[k - 1] && (k < 2 || sorted[k - 2] != sorted[k - 1]) {
            count = count + 1;
        }
        k = k + 1;
    }
    assert(sorted@.subrange(0, n as int) =~= sorted@);
    count
}

} // verus!
