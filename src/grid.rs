//! The greatest product of `n` adjacent numbers in a line of a square grid.

use vstd::prelude::*;

verus! {

/// Every row is as long as the grid is high.
pub open spec fn square(g: Seq<Vec<u32>>) -> bool {
    forall|r: int| 0 <= r < g.len() ==> (#[trigger] g[r])@.len() == g.len()
}

/// The `n` numbers from `(x, y)` going south.
pub open spec fn south(g: Seq<Vec<u32>>, x: int, y: int, n: nat) -> Seq<u32> {
    Seq::new(n, |i: int| g[x + i]@[y])
}

/// The `n` numbers from `(x, y)` going east.
pub open spec fn east(g: Seq<Vec<u32>>, x: int, y: int, n: nat) -> Seq<u32> {
    Seq::new(n, |i: int| g[x]@[y + i])
}

/// The `n` numbers from `(x, y)` going south-east.
pub open spec fn south_east(g: Seq<Vec<u32>>, x: int, y: int, n: nat) -> Seq<u32> {
    Seq::new(n, |i: int| g[x + i]@[y + i])
}

/// The `n` numbers from `(x, y)` going north-east.
pub open spec fn north_east(g: Seq<Vec<u32>>, x: int, y: int, n: nat) -> Seq<u32> {
    Seq::new(n, |i: int| g[x - i]@[y + i])
}

/// The lines of `n` numbers from `(x, y)` that fit in the grid, in the order
/// south, east, south-east, north-east. The last is taken only where `x`
/// is at least `n`.
pub open spec fn lines_at(g: Seq<Vec<u32>>, x: int, y: int, n: nat) -> Seq<Seq<u32>> {
    let len = g.len() as int;
    let a = if x + n <= len {
        seq![south(g, x, y, n)]
    } else {
        Seq::empty()
    };
    let b = if y + n <= len {
        seq![east(g, x, y, n)]
    } else {
        Seq::empty()
    };
    let c = if x + n <= len && y + n <= len {
        seq![south_east(g, x, y, n)]
    } else {
        Seq::empty()
    };
    let d = if x >= n && y + n <= len {
        seq![north_east(g, x, y, n)]
    } else {
        Seq::empty()
    };
    a + b + c + d
}

/// A direction to read a line in.
#[derive(Clone, Copy, Debug, PartialEq, Eq, Structural)]
pub enum Direction {
    South,
    East,
    SouthEast,
    NorthEast,
}

/// The cell `i` steps from `(x, y)` in direction `d`.
pub open spec fn cell(d: Direction, x: int, y: int, i: int) -> (int, int) {
    match d {
        Direction::South => (x + i, y),
        Direction::East => (x, y + i),
        Direction::SouthEast => (x + i, y + i),
        Direction::NorthEast => (x - i, y + i),
    }
}

/// The `n` steps from `(x, y)` in direction `d` stay in a grid of side `len`.
pub open spec fn line_fits(d: Direction, x: int, y: int, n: int, len: int) -> bool {
    0 <= x < len && 0 <= y < len && match d {
        Direction::South => x + n <= len,
        Direction::East => y + n <= len,
        Direction::SouthEast => x + n <= len && y + n <= len,
        Direction::NorthEast => x >= n && y + n <= len,
    }
}

/// Collect `n` numbers from `(x, y)` in direction `d`.
fn collect_line(g: &Vec<Vec<u32>>, x: usize, y: usize, n: usize, d: Direction) -> (r: Vec<u32>)
    requires
        square(g@),
        line_fits(d, x as int, y as int, n as int, g@.len() as int),
    ensures
        r@ == Seq::new(
            n as nat,
            |i: int| g@[cell(d, x as int, y as int, i).0]@[cell(d, x as int, y as int, i).1],
        ),
{
    let mut out: Vec<u32> = Vec::new();
    let mut i: usize = 0;
    while i < n
        invariant
            square(g@),
            line_fits(d, x as int, y as int, n as int, g@.len() as int),
            i <= n,
            out@ == Seq::new(
                i as nat,
                |k: int| g@[cell(d, x as int, y as int, k).0]@[cell(d, x as int, y as int, k).1],
            ),
        decreases n - i,
    {
        let len = g.len();
        let (row, col) = match d {
            Direction::South => {
                assert(x + n <= len);
                (x + i, y)
            },
            Direction::East => {
                assert(y + n <= len);
                (x, y + i)
            },
            Direction::SouthEast => (x + i, y + i),
            Direction::NorthEast => (x - i, y + i),
        };
        assert(g@[row as int]@.len() == g@.len());
        out.push(g[row][col]);
        i = i + 1;
        assert(out@ =~= Seq::new(
            i as nat,
            |k: int| g@[cell(d, x as int, y as int, k).0]@[cell(d, x as int, y as int, k).1],
        ));
    }
    out
}

/// The lines of `n` numbers from `(x, y)`: see `lines_at`.
pub fn lines(g: &Vec<Vec<u32>>, x: usize, y: usize, n: usize) -> (r: Vec<Vec<u32>>)
    requires
        square(g@),
        x < g@.len(),
        y < g@.len(),
    ensures
        r@.map_values(|l: Vec<u32>| l@) == lines_at(g@, x as int, y as int, n as nat),
{
    let len = g.len();
    let mut out: Vec<Vec<u32>> = Vec::new();
    if n <= len - x {
        let l = collect_line(g, x, y, n, Direction::South);
        assert(l@ =~= south(g@, x as int, y as int, n as nat));
        out.push(l);
    }
    if n <= len - y {
        let l = collect_line(g, x, y, n, Direction::East);
        assert(l@ =~= east(g@, x as int, y as int, n as nat));
        out.push(l);
    }
    if n <= len - x && n <= len - y {
        let l = collect_line(g, x, y, n, Direction::SouthEast);
        assert(l@ =~= south_east(g@, x as int, y as int, n as nat));
        out.push(l);
    }
    if x >= n && n <= len - y {
        let l = collect_line(g, x, y, n, Direction::NorthEast);
        assert(l@ =~= north_east(g@, x as int, y as int, n as nat));
        out.push(l);
    }
    assert(out@.map_values(|l: Vec<u32>| l@) =~= lines_at(g@, x as int, y as int, n as nat));
    out
}

/// The product of the numbers of a line.
pub open spec fn product(l: Seq<u32>) -> nat
    decreases l.len(),
{
    if l.len() == 0 {
        1
    } else {
        product(l.drop_last()) * l.last() as nat
    }
}

proof fn lemma_product_zero(l: Seq<u32>, i: int)
    requires
        0 <= i < l.len(),
        l[i] == 0,
    ensures
        product(l) == 0,
    decreases l.len(),
{
    let a = product(l.drop_last());
    let b = l.last() as nat;
    if i < l.len() - 1 {
        assert(l.drop_last()[i] == l[i]);
        lemma_product_zero(l.drop_last(), i);
    }
    assert(a * b == 0) by (nonlinear_arith)
        requires
            a == 0 || b == 0,
    ;
}

proof fn lemma_product_grows(l: Seq<u32>, k: int)
    requires
        0 <= k <= l.len(),
        forall|i: int| 0 <= i < l.len() ==> #[trigger] l[i] >= 1,
    ensures
        product(l.subrange(0, k)) <= product(l),
    decreases l.len() - k,
{
    if k < l.len() {
        lemma_product_grows(l, k + 1);
        let t = l.subrange(0, k + 1);
        assert(t.drop_last() =~= l.subrange(0, k));
        assert(t.last() >= 1);
        assert(product(t) == product(l.subrange(0, k)) * t.last() as nat);
        assert(product(l.subrange(0, k)) <= product(t)) by (nonlinear_arith)
            requires
                product(t) == product(l.subrange(0, k)) * t.last() as nat,
                t.last() >= 1,
        ;
    } else {
        assert(l.subrange(0, k) =~= l);
    }
}

/// The product of the numbers of `l`; `None` where it does not fit in a
/// `u32`.
pub fn line_product(l: &Vec<u32>) -> (r: Option<u32>)
    ensures
        match r {
            Some(p) => p == product(l@),
            None => product(l@) > u32::MAX,
        },
{
    let mut i: usize = 0;
    while i < l.len()
        invariant
            i <= l@.len(),
            forall|j: int| 0 <= j < i ==> #[trigger] l@[j] >= 1,
        decreases l@.len() - i,
    {
        if l[i] == 0 {
            proof {
                lemma_product_zero(l@, i as int);
            }
            return Some(0);
        }
        i = i + 1;
    }
    let mut p: u32 = 1;
    let mut k: usize = 0;
    assert(l@.subrange(0, 0).len() == 0);
    while k < l.len()
        invariant
            k <= l@.len(),
            forall|j: int| 0 <= j < l@.len() ==> #[trigger] l@[j] >= 1,
            p == product(l@.subrange(0, k as int)),
        decreases l@.len() - k,
    {
        proof {
            let t = l@.subrange(0, k + 1);
            assert(t.drop_last() =~= l@.subrange(0, k as int));
        }
        match p.checked_mul(l[k]) {
            Some(q) => p = q,
            None => {
                proof {
                    lemma_product_grows(l@, k + 1);
                }
                return None;
            },
        }
        k = k + 1;
    }
    assert(l@.subrange(0, l@.len() as int) =~= l@);
    Some(p)
}

/// The line `k` from `(x, y)` is one that the scan visits before
/// `(cx, cy, ck)`.
pub open spec fn visited_before(x: int, y: int, k: int, cx: int, cy: int, ck: int) -> bool {
    x < cx || (x == cx && y < cy) || (x == cx && y == cy && k < ck)
}

/// A line of `n` numbers from `(x, y)`, the `k`-th there.
pub open spec fn is_line(g: Seq<Vec<u32>>, n: nat, x: int, y: int, k: int) -> bool {
    0 <= x < g.len() && 0 <= y < g.len() && 0 <= k < lines_at(g, x, y, n).len()
}

/// The greatest product of `n` adjacent numbers in a line of the grid going
/// south, east, south-east or north-east; `None` where there is no such line,
/// or where the product of one does not fit in a `u32`.
pub fn greatest_line_product(g: &Vec<Vec<u32>>, n: usize) -> (r: Option<u32>)
    requires
        square(g@),
    ensures
        match r {
            Some(m) => {
                &&& exists|x: int, y: int, k: int| #[trigger]
                    is_line(g@, n as nat, x, y, k) && m == product(lines_at(g@, x, y, n as nat)[k])
                &&& forall|x: int, y: int, k: int| #[trigger]
                    is_line(g@, n as nat, x, y, k) ==> product(lines_at(g@, x, y, n as nat)[k]) <= m
            },
            None => (forall|x: int, y: int, k: int| !#[trigger] is_line(g@, n as nat, x, y, k))
                || exists|x: int, y: int, k: int| #[trigger]
                is_line(g@, n as nat, x, y, k) && product(lines_at(g@, x, y, n as nat)[k])
                    > u32::MAX,
        },
{
    let len = g.len();
    let mut best: Option<u32> = None;
    let mut x: usize = 0;
    while x < len
        invariant
            len == g@.len(),
            square(g@),
            x <= len,
            match best {
                Some(m) => {
                    &&& exists|a: int, b: int, c: int| #[trigger]
                        is_line(g@, n as nat, a, b, c) && m == product(
                            lines_at(g@, a, b, n as nat)[c],
                        )
                    &&& forall|a: int, b: int, c: int| #[trigger]
                        is_line(g@, n as nat, a, b, c) && a < x ==> product(
                            lines_at(g@, a, b, n as nat)[c],
                        ) <= m
                },
                None => forall|a: int, b: int, c: int| #[trigger]
                    is_line(g@, n as nat, a, b, c) ==> a >= x,
            },
        decreases len - x,
    {
        let mut y: usize = 0;
        while y < len
            invariant
                len == g@.len(),
                square(g@),
                x < len,
                y <= len,
                match best {
                    Some(m) => {
                        &&& exists|a: int, b: int, c: int| #[trigger]
                            is_line(g@, n as nat, a, b, c) && m == product(
                                lines_at(g@, a, b, n as nat)[c],
                            )
                        &&& forall|a: int, b: int, c: int| #[trigger]
                            is_line(g@, n as nat, a, b, c) && (a < x || a == x && b < y)
                                ==> product(lines_at(g@, a, b, n as nat)[c]) <= m
                    },
                    None => forall|a: int, b: int, c: int| #[trigger]
                        is_line(g@, n as nat, a, b, c) ==> a > x || a == x && b >= y,
                },
            decreases len - y,
        {
            let ls = lines(g, x, y, n);
            let ghost here = lines_at(g@, x as int, y as int, n as nat);
            assert(ls@.len() == here.len());
            let mut k: usize = 0;
            while k < ls.len()
                invariant
                    len == g@.len(),
                    square(g@),
                    x < len,
                    y < len,
                    k <= ls@.len(),
                    here == lines_at(g@, x as int, y as int, n as nat),
                    ls@.len() == here.len(),
                    forall|i: int| 0 <= i < ls@.len() ==> (#[trigger] ls@[i])@ == here[i],
                    match best {
                        Some(m) => {
                            &&& exists|a: int, b: int, c: int| #[trigger]
                                is_line(g@, n as nat, a, b, c) && m == product(
                                    lines_at(g@, a, b, n as nat)[c],
                                )
                            &&& forall|a: int, b: int, c: int| #[trigger]
                                is_line(g@, n as nat, a, b, c) && visited_before(
                                    a,
                                    b,
                                    c,
                                    x as int,
                                    y as int,
                                    k as int,
                                ) ==> product(lines_at(g@, a, b, n as nat)[c]) <= m
                        },
                        None => forall|a: int, b: int, c: int| #[trigger]
                            is_line(g@, n as nat, a, b, c) ==> !visited_before(
                                a,
                                b,
                                c,
                                x as int,
                                y as int,
                                k as int,
                            ),
                    },
                decreases ls@.len() - k,
            {
                assert(is_line(g@, n as nat, x as int, y as int, k as int));
                match line_product(&ls[k]) {
                    Some(p) => {
                        let better = match best {
                            Some(m) => p > m,
                            None => true,
                        };
                        if better {
                            best = Some(p);
                        }
                    },
                    None => {
                        return None;
                    },
                }
                k = k + 1;
            }
            y = y + 1;
        }
        x = x + 1;
    }
    best
}

} // verus!
