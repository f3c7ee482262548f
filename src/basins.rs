//! Basins of a height map: the low points, and the cells that drain to each,
//! bounded by the cells of height 9.

use vstd::prelude::*;
use crate::sorting::{ascending, sorted_copy};

verus! {

/// Every row of `g` is as long as the first, and there is one.
pub open spec fn rectangular(g: Seq<Vec<u32>>) -> bool {
    g.len() > 0 && forall|r: int| 0 <= r < g.len() ==> (#[trigger] g[r])@.len() == g[0]@.len()
}

/// `c` is a cell of the grid.
pub open spec fn in_grid(g: Seq<Vec<u32>>, c: (int, int)) -> bool {
    0 <= c.0 < g.len() && 0 <= c.1 < g[0]@.len()
}

/// The height at `c`.
pub open spec fn height_at(g: Seq<Vec<u32>>, c: (int, int)) -> u32 {
    g[c.0]@[c.1]
}

/// `a` and `b` share a side.
pub open spec fn adjacent(a: (int, int), b: (int, int)) -> bool {
    (a.0 == b.0 && (a.1 == b.1 + 1 || b.1 == a.1 + 1)) || (a.1 == b.1 && (a.0 == b.0 + 1 || b.0
        == a.0 + 1))
}

/// A cell of the grid that is not a 9.
pub open spec fn open_cell(g: Seq<Vec<u32>>, c: (int, int)) -> bool {
    in_grid(g, c) && height_at(g, c) != 9
}

/// The cells next to `(x, y)` in the grid: up, down, left, right.
pub open spec fn neighbor_cells(g: Seq<Vec<u32>>, x: int, y: int) -> Seq<(int, int)> {
    let h = g.len() as int;
    let w = g[0]@.len() as int;
    (if x > 0 {
        seq![(x - 1, y)]
    } else {
        Seq::empty()
    }) + (if x < h - 1 {
        seq![(x + 1, y)]
    } else {
        Seq::empty()
    }) + (if y > 0 {
        seq![(x, y - 1)]
    } else {
        Seq::empty()
    }) + (if y < w - 1 {
        seq![(x, y + 1)]
    } else {
        Seq::empty()
    })
}

/// The cells next to `(x, y)`: up, down, left, right, where the grid has
/// them.
pub fn neighbors(g: &Vec<Vec<u32>>, x: usize, y: usize) -> (r: Vec<(usize, usize)>)
    requires
        rectangular(g@),
        in_grid(g@, (x as int, y as int)),
    ensures
        r@.map_values(|c: (usize, usize)| (c.0 as int, c.1 as int)) == neighbor_cells(
            g@,
            x as int,
            y as int,
        ),
{
    let h = g.len();
    let w = g[0].len();
    let mut out: Vec<(usize, usize)> = Vec::new();
    if x > 0 {
        out.push((x - 1, y));
    }
    if x < h - 1 {
        out.push((x + 1, y));
    }
    if y > 0 {
        out.push((x, y - 1));
    }
    if y < w - 1 {
        out.push((x, y + 1));
    }
    assert(out@.map_values(|c: (usize, usize)| (c.0 as int, c.1 as int)) =~= neighbor_cells(
        g@,
        x as int,
        y as int,
    ));
    out
}

/// The neighbours listed are exactly the cells of the grid next to `(x, y)`.
proof fn lemma_neighbor_cells(g: Seq<Vec<u32>>, x: int, y: int, c: (int, int))
    requires
        rectangular(g),
        in_grid(g, (x, y)),
    ensures
        neighbor_cells(g, x, y).contains(c) <==> in_grid(g, c) && adjacent((x, y), c),
{
    let n = neighbor_cells(g, x, y);
    if in_grid(g, c) && adjacent((x, y), c) {
        if c == (x - 1, y) {
            assert(n[0] == c);
        } else if c == (x + 1, y) {
            let k = if x > 0 { 1int } else { 0int };
            assert(n[k] == c);
        } else if c == (x, y - 1) {
            let k = (if x > 0 { 1int } else { 0int }) + (if x < g.len() - 1 { 1int } else { 0int });
            assert(n[k] == c);
        } else {
            let k = (if x > 0 { 1int } else { 0int }) + (if x < g.len() - 1 { 1int } else { 0int }) + (
            if y > 0 { 1int } else { 0int });
            assert(n[k] == c);
        }
    }
}

/// Whether every neighbour of `(x, y)` is higher.
pub fn is_low_point(g: &Vec<Vec<u32>>, x: usize, y: usize) -> (r: bool)
    requires
        rectangular(g@),
        in_grid(g@, (x as int, y as int)),
    ensures
        r == forall|c: (int, int)| #[trigger]
            adjacent((x as int, y as int), c) && in_grid(g@, c) ==> height_at(g@, c) > g@[x as int]@[y as int],
{
    let ns = neighbors(g, x, y);
    let here = g[x][y];
    let mut k: usize = 0;
    while k < ns.len()
        invariant
            rectangular(g@),
            in_grid(g@, (x as int, y as int)),
            here == g@[x as int]@[y as int],
            k <= ns@.len(),
            ns@.map_values(|c: (usize, usize)| (c.0 as int, c.1 as int)) == neighbor_cells(
                g@,
                x as int,
                y as int,
            ),
            forall|j: int| 0 <= j < k ==> height_at(g@, #[trigger] neighbor_cells(g@, x as int, y as int)[j]) > here,
        decreases ns@.len() - k,
    {
        let (p, q) = ns[k];
        proof {
            let c = neighbor_cells(g@, x as int, y as int)[k as int];
            assert(c == (p as int, q as int));
            assert(neighbor_cells(g@, x as int, y as int).contains(c));
            lemma_neighbor_cells(g@, x as int, y as int, c);
            assert(g@[p as int]@.len() == g@[0]@.len());
        }
        if g[p][q] <= here {
            proof {
                let c = (p as int, q as int);
                assert(neighbor_cells(g@, x as int, y as int)[k as int] == c);
                lemma_neighbor_cells(g@, x as int, y as int, c);
            }
            return false;
        }
        k = k + 1;
    }
    proof {
        assert forall|c: (int, int)| #[trigger]
            adjacent((x as int, y as int), c) && in_grid(g@, c) implies height_at(g@, c) > here by {
            lemma_neighbor_cells(g@, x as int, y as int, c);
            let j = choose|j: int| 0 <= j < neighbor_cells(g@, x as int, y as int).len()
                && neighbor_cells(g@, x as int, y as int)[j] == c;
        }
    }
    true
}

/// `p` walks through open cells, each step to a neighbouring cell.
pub open spec fn is_walk(g: Seq<Vec<u32>>, p: Seq<(int, int)>) -> bool {
    &&& p.len() > 0
    &&& forall|i: int| 0 <= i < p.len() ==> open_cell(g, #[trigger] p[i])
    &&& forall|i: int| 0 <= i < p.len() - 1 ==> adjacent(#[trigger] p[i], p[i + 1])
}

/// A walk through open cells leads from `a` to `b`.
pub open spec fn reaches(g: Seq<Vec<u32>>, a: (int, int), b: (int, int)) -> bool {
    exists|p: Seq<(int, int)>| #[trigger] is_walk(g, p) && p[0] == a && p.last() == b
}

/// The basin of `a`: the cells that a walk through open cells reaches
/// from it.
pub open spec fn basin(g: Seq<Vec<u32>>, a: (int, int)) -> Set<(int, int)> {
    Set::new(|c: (int, int)| reaches(g, a, c))
}

/// How many entries of `v` are `false`.
pub open spec fn falses(v: Seq<bool>) -> nat
    decreases v.len(),
{
    if v.len() == 0 {
        0
    } else {
        falses(v.drop_last()) + if v.last() {
            0nat
        } else {
            1nat
        }
    }
}

proof fn lemma_falses_update(v: Seq<bool>, k: int)
    requires
        0 <= k < v.len(),
        !v[k],
    ensures
        falses(v.update(k, true)) + 1 == falses(v),
    decreases v.len(),
{
    let u = v.update(k, true);
    if k < v.len() - 1 {
        assert(u.drop_last() =~= v.drop_last().update(k, true));
        lemma_falses_update(v.drop_last(), k);
    } else {
        assert(u.drop_last() =~= v.drop_last());
    }
}

/// The index of cell `c` in a row-by-row layout of rows `w` long.
pub open spec fn flat(w: int, c: (int, int)) -> int {
    c.0 * w + c.1
}

/// A grid cell as a pair of `int`.
pub open spec fn as_cell(c: (usize, usize)) -> (int, int) {
    (c.0 as int, c.1 as int)
}

proof fn lemma_flat_bounds(h: int, w: int, c: (int, int))
    requires
        0 <= c.0 < h,
        0 <= c.1 < w,
    ensures
        0 <= flat(w, c) < h * w,
{
    assert(0 <= c.0 * w + c.1 < h * w) by (nonlinear_arith)
        requires
            0 <= c.0 < h,
            0 <= c.1 < w,
    ;
}

proof fn lemma_flat_injective(w: int, a: (int, int), b: (int, int))
    requires
        0 <= a.1 < w,
        0 <= b.1 < w,
        0 <= a.0,
        0 <= b.0,
        flat(w, a) == flat(w, b),
    ensures
        a == b,
{
    assert(a.0 == b.0) by (nonlinear_arith)
        requires
            a.0 * w + a.1 == b.0 * w + b.1,
            0 <= a.1 < w,
            0 <= b.1 < w,
            0 <= a.0,
            0 <= b.0,
    ;
}

/// A walk from `start` stays inside a set that holds `start` and every open
/// neighbour of each of its cells.
proof fn lemma_closed_holds_walk(g: Seq<Vec<u32>>, seen: Set<(int, int)>, p: Seq<(int, int)>, i: int)
    requires
        is_walk(g, p),
        seen.contains(p[0]),
        forall|c: (int, int), n: (int, int)| #[trigger]
            seen.contains(c) && adjacent(c, n) && open_cell(g, n) ==> #[trigger] seen.contains(n),
        0 <= i < p.len(),
    ensures
        seen.contains(p[i]),
    decreases i,
{
    if i > 0 {
        lemma_closed_holds_walk(g, seen, p, i - 1);
        assert(adjacent(p[i - 1], p[i]));
        assert(open_cell(g, p[i]));
    }
}

/// Some entry of the stack `st` is the cell `d`.
pub open spec fn in_stack(st: Seq<(usize, usize)>, d: (int, int)) -> bool {
    exists|i: int| 0 <= i < st.len() && #[trigger] as_cell(st[i]) == d
}

/// The number of cells in the basin of `(x, y)`; none where it is a 9.
pub fn basin_size(g: &Vec<Vec<u32>>, x: usize, y: usize) -> (r: usize)
    requires
        rectangular(g@),
        in_grid(g@, (x as int, y as int)),
        g@.len() * g@[0]@.len() <= usize::MAX,
    ensures
        basin(g@, (x as int, y as int)).finite(),
        r == basin(g@, (x as int, y as int)).len(),
{
    let h = g.len();
    let w = g[0].len();
    let ghost start = (x as int, y as int);
    let total = h * w;
    let mut visited: Vec<bool> = Vec::new();
    while visited.len() < total
        invariant
            visited@.len() <= total,
            falses(visited@) == visited@.len(),
            forall|k: int| 0 <= k < visited@.len() ==> !#[trigger] visited@[k],
        decreases total - visited@.len(),
    {
        let ghost before = visited@;
        visited.push(false);
        assert(visited@.drop_last() =~= before);
    }
    let ghost mut seen: Set<(int, int)> = Set::empty();
    let ghost mut done: Set<(int, int)> = Set::empty();
    let mut stack: Vec<(usize, usize)> = Vec::new();
    let mut count: usize = 0;
    proof {
        lemma_flat_bounds(h as int, w as int, start);
        assert forall|d: (int, int)| in_grid(g@, d) implies visited@[flat(w as int, d)]
            == seen.contains(d) by {
            lemma_flat_bounds(h as int, w as int, d);
        }
    }
    assert(g@[x as int]@.len() == w);
    if g[x][y] != 9 {
        let k = x * w + y;
        proof {
            lemma_falses_update(visited@, k as int);
        }
        visited.set(k, true);
        proof {
            let p = seq![start];
            assert(is_walk(g@, p) && p[0] == start && p.last() == start);
            seen = seen.insert(start);
            assert forall|d: (int, int)| in_grid(g@, d) implies visited@[flat(w as int, d)]
                == seen.contains(d) by {
                lemma_flat_bounds(h as int, w as int, d);
                if d != start && flat(w as int, d) == k {
                    lemma_flat_injective(w as int, d, start);
                }
            }
        }
        stack.push((x, y));
        count = 1;
        assert(as_cell(stack@[0]) == start);
    }
    while stack.len() > 0
        invariant
            rectangular(g@),
            h == g@.len(),
            w == g@[0]@.len(),
            total == h * w,
            total <= usize::MAX,
            visited@.len() == total,
            start == (x as int, y as int),
            in_grid(g@, start),
            forall|d: (int, int)|
                #![trigger seen.contains(d)]
                #![trigger visited@[flat(w as int, d)]]
                in_grid(g@, d) ==> visited@[flat(w as int, d)] == seen.contains(d),
            forall|d: (int, int)| #[trigger]
                seen.contains(d) ==> open_cell(g@, d) && reaches(g@, start, d),
            seen.finite(),
            count == seen.len(),
            count + falses(visited@) == total,
            forall|i: int| 0 <= i < stack@.len() ==> seen.contains(as_cell(#[trigger] stack@[i])),
            forall|d: (int, int)| #[trigger] done.contains(d) ==> seen.contains(d),
            forall|d: (int, int)| #[trigger]
                seen.contains(d) ==> done.contains(d) || in_stack(stack@, d),
            forall|d: (int, int), n: (int, int)| #[trigger]
                done.contains(d) && adjacent(d, n) && open_cell(g@, n) ==> #[trigger] seen.contains(n),
            open_cell(g@, start) ==> seen.contains(start),
        decreases 2 * falses(visited@) + stack@.len(),
    {
        let ghost m0 = 2 * falses(visited@) + stack@.len();
        let ghost old_stack = stack@;
        let c = stack.pop().unwrap();
        let ghost cc = as_cell(c);
        proof {
            assert(old_stack[old_stack.len() - 1] == c);
            assert(seen.contains(as_cell(old_stack[old_stack.len() - 1])));
            assert forall|d: (int, int)| #[trigger] seen.contains(d) implies done.contains(d)
                || in_stack(stack@, d) || d == cc by {
                if !done.contains(d) && d != cc {
                    let i = choose|i: int| 0 <= i < old_stack.len() && #[trigger] as_cell(old_stack[i]) == d;
                    assert(i < old_stack.len() - 1);
                    assert(stack@[i] == old_stack[i]);
                }
            }
        }
        let ns = neighbors(g, c.0, c.1);
        let ghost nbs = neighbor_cells(g@, c.0 as int, c.1 as int);
        let mut k: usize = 0;
        while k < ns.len()
            invariant
                rectangular(g@),
                h == g@.len(),
                w == g@[0]@.len(),
                total == h * w,
                total <= usize::MAX,
                visited@.len() == total,
                start == (x as int, y as int),
                in_grid(g@, cc),
                cc == as_cell(c),
                seen.contains(cc),
                k <= ns@.len(),
                nbs == neighbor_cells(g@, c.0 as int, c.1 as int),
                ns@.map_values(|s: (usize, usize)| as_cell(s)) == nbs,
                forall|d: (int, int)|
                    #![trigger seen.contains(d)]
                    #![trigger visited@[flat(w as int, d)]]
                    in_grid(g@, d) ==> visited@[flat(w as int, d)] == seen.contains(d),
                forall|d: (int, int)| #[trigger]
                    seen.contains(d) ==> open_cell(g@, d) && reaches(g@, start, d),
                seen.finite(),
                count == seen.len(),
                count + falses(visited@) == total,
                forall|i: int| 0 <= i < stack@.len() ==> seen.contains(as_cell(#[trigger] stack@[i])),
                forall|d: (int, int)| #[trigger] done.contains(d) ==> seen.contains(d),
                forall|d: (int, int)| #[trigger]
                    seen.contains(d) ==> done.contains(d) || in_stack(stack@, d) || d == cc,
                forall|d: (int, int), n: (int, int)| #[trigger]
                    done.contains(d) && adjacent(d, n) && open_cell(g@, n) ==> #[trigger] seen.contains(
                        n,
                    ),
                forall|j: int| 0 <= j < k && open_cell(g@, #[trigger] nbs[j]) ==> seen.contains(nbs[j]),
                open_cell(g@, start) ==> seen.contains(start),
                2 * falses(visited@) + stack@.len() < m0,
            decreases ns@.len() - k,
        {
            let n = ns[k];
            let ghost nc = as_cell(n);
            proof {
                assert(nbs[k as int] == nc);
                assert(nbs.contains(nc));
                lemma_neighbor_cells(g@, c.0 as int, c.1 as int, nc);
                assert(g@[n.0 as int]@.len() == w);
                lemma_flat_bounds(h as int, w as int, nc);
            }
            if g[n.0][n.1] != 9 {
                let idx = n.0 * w + n.1;
                if !visited[idx] {
                    proof {
                        lemma_falses_update(visited@, idx as int);
                        let p = choose|p: Seq<(int, int)>| #[trigger]
                            is_walk(g@, p) && p[0] == start && p.last() == cc;
                        let q = p.push(nc);
                        assert(q[q.len() - 2] == cc);
                        assert forall|i: int| 0 <= i < q.len() - 1 implies adjacent(
                            #[trigger] q[i],
                            q[i + 1],
                        ) by {
                            if i < p.len() - 1 {
                                assert(q[i] == p[i] && q[i + 1] == p[i + 1]);
                            }
                        }
                        assert(is_walk(g@, q) && q[0] == start && q.last() == nc);
                    }
                    let ghost old_stack2 = stack@;
                    visited.set(idx, true);
                    proof {
                        assert(!seen.contains(nc));
                        seen = seen.insert(nc);
                        assert forall|d: (int, int)| in_grid(g@, d) implies visited@[flat(
                            w as int,
                            d,
                        )] == seen.contains(d) by {
                            lemma_flat_bounds(h as int, w as int, d);
                            if d != nc && flat(w as int, d) == idx {
                                lemma_flat_injective(w as int, d, nc);
                            }
                        }
                    }
                    stack.push(n);
                    count = count + 1;
                    proof {
                        assert(as_cell(stack@[stack@.len() - 1]) == nc);
                        assert forall|d: (int, int)| #[trigger] seen.contains(d) implies done.contains(d)
                            || in_stack(stack@, d) || d == cc by {
                            if d != nc && !done.contains(d) && d != cc {
                                let i = choose|i: int| 0 <= i < old_stack2.len() && #[trigger] as_cell(
                                    old_stack2[i],
                                ) == d;
                                assert(stack@[i] == old_stack2[i]);
                            }
                        }
                        assert forall|i: int| 0 <= i < stack@.len() implies seen.contains(
                            as_cell(#[trigger] stack@[i]),
                        ) by {
                            if i < old_stack2.len() {
                                assert(stack@[i] == old_stack2[i]);
                            }
                        }
                    }
                }
            }
            k = k + 1;
        }
        proof {
            assert forall|n: (int, int)| adjacent(cc, n) && open_cell(g@, n) implies #[trigger] seen.contains(n) by {
                lemma_neighbor_cells(g@, c.0 as int, c.1 as int, n);
                let j = choose|j: int| 0 <= j < nbs.len() && nbs[j] == n;
                assert(open_cell(g@, nbs[j]));
            }
            done = done.insert(cc);
        }
    }
    proof {
        assert forall|d: (int, int)| #[trigger] seen.contains(d) implies done.contains(d) by {
            if !done.contains(d) {
                assert(in_stack(stack@, d));
            }
        }
        assert forall|c: (int, int), n: (int, int)| #[trigger]
            seen.contains(c) && adjacent(c, n) && open_cell(g@, n) implies #[trigger] seen.contains(n) by {
            assert(done.contains(c));
        }
        assert forall|d: (int, int)| basin(g@, start).contains(d) implies seen.contains(d) by {
            let p = choose|p: Seq<(int, int)>| #[trigger] is_walk(g@, p) && p[0] == start && p.last() == d;
            assert(open_cell(g@, p[0]));
            lemma_closed_holds_walk(g@, seen, p, p.len() - 1);
        }
        assert(seen =~= basin(g@, start));
    }
    count
}

/// Every neighbour of `c` is higher.
pub open spec fn low_point(g: Seq<Vec<u32>>, c: (int, int)) -> bool {
    forall|n: (int, int)| #[trigger] adjacent(c, n) && in_grid(g, n) ==> height_at(g, n) > height_at(g, c)
}

/// The cell at index `k` of the row-by-row layout of rows `w` long.
pub open spec fn unflat(w: int, k: int) -> (int, int) {
    (k / w, k % w)
}

/// The basin sizes of the low points among the first `k` cells, row by row.
pub open spec fn low_basin_sizes(g: Seq<Vec<u32>>, k: nat) -> Seq<u64>
    decreases k,
{
    if k == 0 {
        Seq::empty()
    } else {
        let rest = low_basin_sizes(g, (k - 1) as nat);
        let c = unflat(g[0]@.len() as int, k - 1);
        if low_point(g, c) {
            rest.push(basin(g, c).len() as u64)
        } else {
            rest
        }
    }
}

/// The product of the last three values of `t`, or of all where there are
/// fewer.
pub open spec fn top_three_product(t: Seq<u64>) -> nat {
    let n = t.len() as int;
    if n == 0 {
        1
    } else if n == 1 {
        t[0] as nat
    } else if n == 2 {
        t[0] as nat * t[1] as nat
    } else {
        t[n - 1] as nat * t[n - 2] as nat * t[n - 3] as nat
    }
}

/// The product of the sizes of the three largest basins of low points (of
/// all of them where there are fewer); `None` where it does not fit in a
/// `u64`.
pub fn largest_basins_product(g: &Vec<Vec<u32>>) -> (r: Option<u64>)
    requires
        rectangular(g@),
        g@[0]@.len() > 0,
        g@.len() * g@[0]@.len() <= usize::MAX,
    ensures
        exists|t: Seq<u64>|
            {
                &&& ascending(t)
                &&& t.to_multiset() == low_basin_sizes(g@, (g@.len() * g@[0]@.len()) as nat).to_multiset()
                &&& match r {
                    Some(p) => p == top_three_product(t),
                    None => top_three_product(t) > u64::MAX,
                }
            },
{
    let h = g.len();
    let w = g[0].len();
    let total = h * w;
    let mut sizes: Vec<u64> = Vec::new();
    let mut k: usize = 0;
    while k < total
        invariant
            rectangular(g@),
            h == g@.len(),
            w == g@[0]@.len(),
            w > 0,
            total == h * w,
            total <= usize::MAX,
            k <= total,
            sizes@ == low_basin_sizes(g@, k as nat),
        decreases total - k,
    {
        let x = k / w;
        let y = k % w;
        assert(x < h) by (nonlinear_arith)
            requires
                k < h * w,
                x == k / w,
                w > 0,
        ;
        assert(unflat(w as int, k as int) == (x as int, y as int));
        if is_low_point(g, x, y) {
            let size = basin_size(g, x, y);
            sizes.push(size as u64);
        }
        k = k + 1;
    }
    let t = sorted_copy(sizes.as_slice());
    proof {
        t@.to_multiset_ensures();
        sizes@.to_multiset_ensures();
    }
    let n = t.len();
    let r = if n == 0 {
        Some(1u64)
    } else if n == 1 {
        Some(t[0])
    } else if n == 2 {
        t[0].checked_mul(t[1])
    } else {
        match t[n - 1].checked_mul(t[n - 2]) {
            Some(a) => a.checked_mul(t[n - 3]),
            None => {
                assert(t@[n - 3] >= 1 || t@[n - 3] == 0);
                if t[n - 3] == 0 {
                    Some(0u64)
                } else {
                    assert((t@[n - 1] as nat * t@[n - 2] as nat) * t@[n - 3] as nat >= t@[n - 1] as nat
                        * t@[n - 2] as nat) by (nonlinear_arith)
                        requires
                            t@[n - 3] >= 1,
                    ;
                    None
                }
            },
        }
    };
    assert(ascending(t@) && t@.to_multiset() == low_basin_sizes(g@, total as nat).to_multiset());
    r
}

} // verus!
