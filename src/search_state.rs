//! Bookkeeping of one A* search: per-cell flags and costs, the open list, parent links, and
//! the facts that hold of them between steps.
use crate::algo::{Pos, adjacent, ancestor, chain_ends_at, consistent, in_bounds, is_free, is_parent_chain, is_path, is_rect, lemma_path_at_least_manhattan, manhattan};
use std::collections::BTreeMap;
use vstd::prelude::*;

verus! {

/// The value that `v` holds for the cell `p`.
pub open spec fn cell<T>(v: Seq<Vec<T>>, p: Pos) -> T {
    v[p.0 as int]@[p.1 as int]
}

/// `v` has `height` rows of `width` values each.
pub open spec fn shaped<T>(v: Seq<Vec<T>>, height: int, width: int) -> bool {
    &&& v.len() == height
    &&& forall|i: int| 0 <= i < height ==> (#[trigger] v[i])@.len() == width
}

/// How many entries of `s` are `false`.
pub open spec fn unsettled_in_row(s: Seq<bool>) -> nat
    decreases s.len(),
{
    if s.len() == 0 {
        0
    } else {
        unsettled_in_row(s.drop_last()) + if s.last() {
            0nat
        } else {
            1nat
        }
    }
}

/// How many entries of all rows of `v` are `false`.
pub open spec fn unsettled(v: Seq<Vec<bool>>) -> nat
    decreases v.len(),
{
    if v.len() == 0 {
        0
    } else {
        unsettled(v.drop_last()) + unsettled_in_row(v.last()@)
    }
}

pub(crate) proof fn lemma_unsettled_in_row_bound(s: Seq<bool>)
    ensures
        unsettled_in_row(s) <= s.len(),
    decreases s.len(),
{
    if s.len() > 0 {
        lemma_unsettled_in_row_bound(s.drop_last());
    }
}

pub(crate) proof fn lemma_unsettled_in_row_set(s: Seq<bool>, i: int)
    requires
        0 <= i < s.len(),
        !s[i],
    ensures
        unsettled_in_row(s.update(i, true)) + 1 == unsettled_in_row(s),
    decreases s.len(),
{
    let t = s.update(i, true);
    if i == s.len() - 1 {
        assert(t.drop_last() =~= s.drop_last());
    } else {
        assert(t.drop_last() =~= s.drop_last().update(i, true));
        lemma_unsettled_in_row_set(s.drop_last(), i);
    }
}

pub(crate) proof fn lemma_unsettled_bound(v: Seq<Vec<bool>>, width: int)
    requires
        width >= 0,
        forall|i: int| 0 <= i < v.len() ==> (#[trigger] v[i])@.len() == width,
    ensures
        unsettled(v) <= v.len() * width,
    decreases v.len(),
{
    if v.len() > 0 {
        lemma_unsettled_bound(v.drop_last(), width);
        lemma_unsettled_in_row_bound(v.last()@);
        assert((v.len() - 1) * width + width == v.len() * width) by (nonlinear_arith);
    }
}

pub(crate) proof fn lemma_unsettled_set(v: Seq<Vec<bool>>, w: Seq<Vec<bool>>, r: int, c: int)
    requires
        0 <= r < v.len(),
        w.len() == v.len(),
        forall|i: int| 0 <= i < v.len() && i != r ==> #[trigger] w[i] == v[i],
        0 <= c < v[r]@.len(),
        !v[r]@[c],
        w[r]@ == v[r]@.update(c, true),
    ensures
        unsettled(w) + 1 == unsettled(v),
    decreases v.len(),
{
    lemma_unsettled_in_row_set(v[r]@, c);
    if r == v.len() - 1 {
        assert(w.drop_last() =~= v.drop_last());
    } else {
        assert(w.last() == v.last());
        lemma_unsettled_set(v.drop_last(), w.drop_last(), r, c);
    }
}

/// Parent links of the search: each leads from a free cell to a settled cell one step away
/// whose cost is one less, and every reached cell but `start` has one.
pub open spec fn parents_ok<S: Fn(usize, usize, &Vec<Vec<i32>>) -> bool>(
    is_solid: S,
    grid: &Vec<Vec<i32>>,
    start: Pos,
    closed: Seq<Vec<bool>>,
    open: Seq<Vec<bool>>,
    g: Seq<Vec<i64>>,
    came_from: Map<Pos, Pos>,
) -> bool {
    &&& !came_from.contains_key(start)
    &&& forall|p: Pos| #[trigger]
        came_from.contains_key(p) ==> {
            &&& is_free(is_solid, grid, p)
            &&& in_bounds(grid@, came_from[p])
            &&& adjacent(came_from[p], p)
            &&& cell(closed, came_from[p])
            &&& cell(open, p) || cell(closed, p)
            &&& cell(g, came_from[p]) + 1 == cell(g, p)
        }
    &&& forall|p: Pos|
        #![trigger cell(open, p)]
        #![trigger cell(closed, p)]
        in_bounds(grid@, p) && (cell(open, p) || cell(closed, p)) ==> p == start
            || came_from.contains_key(p)
}

/// Every free cell next to a settled cell `p` other than `except` is settled too, or open at a
/// cost of at most one more than that of `p`.
pub open spec fn frontier_ok<S: Fn(usize, usize, &Vec<Vec<i32>>) -> bool>(
    is_solid: S,
    grid: &Vec<Vec<i32>>,
    closed: Seq<Vec<bool>>,
    open: Seq<Vec<bool>>,
    g: Seq<Vec<i64>>,
    except: Option<Pos>,
) -> bool {
    forall|p: Pos, q: Pos|
        #![trigger cell(closed, p), is_free(is_solid, grid, q)]
        in_bounds(grid@, p) && cell(closed, p) && except != Some(p) && is_free(is_solid, grid, q)
            && adjacent(p, q) ==> cell(closed, q) || (cell(open, q) && cell(g, q) <= cell(g, p) + 1)
}

/// The list of open cells holds each open cell once, and nothing else.
#[verifier::opaque]
pub open spec fn open_list_ok(grid: Seq<Vec<i32>>, open: Seq<Vec<bool>>, list: Seq<Pos>) -> bool {
    &&& forall|i: int|
        0 <= i < list.len() ==> in_bounds(grid, #[trigger] list[i]) && cell(open, list[i])
    &&& forall|i: int, j: int| 0 <= i < j < list.len() ==> list[i] != list[j]
    &&& forall|p: Pos| in_bounds(grid, p) && #[trigger] cell(open, p) ==> list.contains(p)
}

/// Costs of reached cells are non-negative and bounded by the work left.
#[verifier::opaque]
pub open spec fn costs_ok(
    grid: Seq<Vec<i32>>,
    start: Pos,
    closed: Seq<Vec<bool>>,
    open: Seq<Vec<bool>>,
    g: Seq<Vec<i64>>,
    budget: int,
) -> bool {
    &&& cell(g, start) == 0
    &&& forall|p: Pos|
        #![trigger cell(g, p)]
        in_bounds(grid, p) && (cell(open, p) || cell(closed, p)) ==> 0 <= cell(g, p) && cell(g, p)
            + unsettled(closed) <= budget
}

pub(crate) proof fn lemma_chain_ends<S: Fn(usize, usize, &Vec<Vec<i32>>) -> bool>(
    is_solid: S,
    grid: &Vec<Vec<i32>>,
    start: Pos,
    closed: Seq<Vec<bool>>,
    open: Seq<Vec<bool>>,
    g: Seq<Vec<i64>>,
    came_from: Map<Pos, Pos>,
    p: Pos,
)
    requires
        parents_ok(is_solid, grid, start, closed, open, g, came_from),
        in_bounds(grid@, p),
        cell(open, p) || cell(closed, p),
        cell(g, p) >= 0,
        forall|q: Pos| #![trigger cell(g, q)] in_bounds(grid@, q) && cell(closed, q) ==> cell(g, q) >= 0,
    ensures
        exists|n: nat| chain_ends_at(came_from, p, n),
    decreases cell(g, p),
{
    reveal(parents_ok);
    if !came_from.contains_key(p) {
        assert(chain_ends_at(came_from, p, 0));
    } else {
        let q = came_from[p];
        assert(cell(closed, q) && in_bounds(grid@, q) && cell(g, q) + 1 == cell(g, p));
        lemma_chain_ends(is_solid, grid, start, closed, open, g, came_from, q);
        let n = choose|n: nat| chain_ends_at(came_from, q, n);
        assert forall|k: nat| k < n + 1 implies came_from.contains_key(
            #[trigger] ancestor(came_from, p, k),
        ) by {
            if k > 0 {
                assert(ancestor(came_from, p, k) == ancestor(came_from, q, (k - 1) as nat));
            }
        }
        assert(ancestor(came_from, p, n + 1) == ancestor(came_from, q, n));
        assert(chain_ends_at(came_from, p, n + 1));
    }
}

/// Every cell of a path is settled, where the settled cells hold `start`, leave no free
/// cell next to them unreached, and nothing is left open.
pub(crate) proof fn lemma_path_settled<S: Fn(usize, usize, &Vec<Vec<i32>>) -> bool>(
    is_solid: S,
    grid: &Vec<Vec<i32>>,
    start: Pos,
    end: Pos,
    closed: Seq<Vec<bool>>,
    open: Seq<Vec<bool>>,
    g: Seq<Vec<i64>>,
    path: Seq<Pos>,
    i: int,
)
    requires
        frontier_ok(is_solid, grid, closed, open, g, None),
        forall|p: Pos| in_bounds(grid@, p) ==> !#[trigger] cell(open, p),
        cell(closed, start),
        is_path(is_solid, grid, start, end, path),
        0 <= i < path.len(),
    ensures
        cell(closed, path[i]),
    decreases i,
{
    if i > 0 {
        lemma_path_settled(is_solid, grid, start, end, closed, open, g, path, i - 1);
        let p = path[i - 1];
        let q = path[i];
        assert(is_free(is_solid, grid, p));
        assert(is_free(is_solid, grid, q));
        assert(adjacent(p, q));
        assert(!cell(open, q));
    }
}

/// No path leads from or to a cell that is not free.
pub(crate) proof fn lemma_no_path_from_blocked<S: Fn(usize, usize, &Vec<Vec<i32>>) -> bool>(
    is_solid: S,
    grid: &Vec<Vec<i32>>,
    start: Pos,
    end: Pos,
)
    requires
        !is_free(is_solid, grid, start) || !is_free(is_solid, grid, end),
    ensures
        forall|path: Seq<Pos>| !is_path(is_solid, grid, start, end, path),
{
    assert forall|path: Seq<Pos>| !is_path(is_solid, grid, start, end, path) by {
        if is_path(is_solid, grid, start, end, path) {
            assert(is_free(is_solid, grid, path[0]));
            assert(is_free(is_solid, grid, path[path.len() - 1]));
        }
    }
}

/// The parent links of the search, followed back from a reached `end`, give a path from
/// `start`.
pub(crate) proof fn lemma_found_path<S: Fn(usize, usize, &Vec<Vec<i32>>) -> bool>(
    is_solid: S,
    grid: &Vec<Vec<i32>>,
    start: Pos,
    end: Pos,
    closed: Seq<Vec<bool>>,
    open: Seq<Vec<bool>>,
    g: Seq<Vec<i64>>,
    came_from: Map<Pos, Pos>,
    path: Seq<Pos>,
)
    requires
        parents_ok(is_solid, grid, start, closed, open, g, came_from),
        is_parent_chain(came_from, path, end),
        in_bounds(grid@, end),
        cell(open, end) || cell(closed, end),
        is_free(is_solid, grid, start),
    ensures
        is_path(is_solid, grid, start, end, path),
{
    reveal(parents_ok);
    let first = path[0];
    if path.len() > 1 {
        assert(came_from.contains_key(path[1]));
        assert(cell(closed, first));
        assert(in_bounds(grid@, first));
    }
    assert(first == start);
    assert forall|i: int| 0 <= i < path.len() implies is_free(is_solid, grid, #[trigger] path[i]) by {
        if i > 0 {
            assert(came_from.contains_key(path[i]));
        }
    }
    assert forall|i: int| 0 <= i < path.len() - 1 implies adjacent(#[trigger] path[i], path[i + 1]) by {
        let j = i + 1;
        assert(came_from.contains_key(path[j]));
    }
}

/// The cost of every settled cell is at most the number of steps of any path to it.
pub open spec fn settled_optimal<S: Fn(usize, usize, &Vec<Vec<i32>>) -> bool>(
    is_solid: S,
    grid: &Vec<Vec<i32>>,
    start: Pos,
    closed: Seq<Vec<bool>>,
    g: Seq<Vec<i64>>,
) -> bool {
    forall|p: Pos, path: Seq<Pos>|
        #![trigger cell(closed, p), is_path(is_solid, grid, start, p, path)]
        in_bounds(grid@, p) && cell(closed, p) && is_path(is_solid, grid, start, p, path) ==> cell(
            g,
            p,
        ) + 1 <= path.len()
}

/// The recorded estimate of each open cell is one the heuristic gives for it.
pub open spec fn estimates_ok<H: Fn((i32, i32), (i32, i32)) -> i32>(
    heuristic: H,
    grid: &Vec<Vec<i32>>,
    end: Pos,
    open: Seq<Vec<bool>>,
    hv: Seq<Vec<i32>>,
) -> bool {
    forall|p: Pos|
        in_bounds(grid@, p) && #[trigger] cell(open, p) ==> heuristic.ensures((p, end), cell(hv, p))
}

/// On a path from `start` to a cell not yet settled, some cell at index `i >= j` is open at a
/// cost of at most `i`, when all cells before index `j` are settled.
pub(crate) proof fn lemma_first_open<S: Fn(usize, usize, &Vec<Vec<i32>>) -> bool>(
    is_solid: S,
    grid: &Vec<Vec<i32>>,
    start: Pos,
    closed: Seq<Vec<bool>>,
    open: Seq<Vec<bool>>,
    g: Seq<Vec<i64>>,
    target: Pos,
    path: Seq<Pos>,
    j: int,
) -> (i: int)
    requires
        cell(g, start) == 0,
        cell(open, start) || cell(closed, start),
        frontier_ok(is_solid, grid, closed, open, g, None),
        settled_optimal(is_solid, grid, start, closed, g),
        is_path(is_solid, grid, start, target, path),
        !cell(closed, target),
        0 <= j < path.len(),
        forall|k: int| 0 <= k < j ==> cell(closed, #[trigger] path[k]),
    ensures
        j <= i < path.len(),
        cell(open, path[i]),
        cell(g, path[i]) <= i,
    decreases path.len() - j,
{
    if !cell(closed, path[j]) {
        if j > 0 {
            let prev = path[j - 1];
            let prefix = path.subrange(0, j);
            assert(prefix[prefix.len() - 1] == prev);
            assert forall|k: int| 0 <= k < prefix.len() implies is_free(
                is_solid,
                grid,
                #[trigger] prefix[k],
            ) by {
                assert(prefix[k] == path[k]);
            }
            assert forall|k: int| 0 <= k < prefix.len() - 1 implies adjacent(
                #[trigger] prefix[k],
                prefix[k + 1],
            ) by {
                assert(prefix[k] == path[k]);
                assert(prefix[k + 1] == path[k + 1]);
            }
            assert(is_path(is_solid, grid, start, prev, prefix));
            assert(cell(closed, prev));
            assert(is_free(is_solid, grid, prev));
            assert(cell(g, prev) + 1 <= prefix.len());
            assert(is_free(is_solid, grid, path[j]));
            assert(adjacent(prev, path[j]));
        }
        j
    } else {
        lemma_first_open(is_solid, grid, start, closed, open, g, target, path, j + 1)
    }
}

/// Settling the open cell of lowest estimated total cost keeps every settled cost optimal,
/// when the heuristic is consistent.
pub(crate) proof fn lemma_settle_optimal<
    H: Fn((i32, i32), (i32, i32)) -> i32,
    S: Fn(usize, usize, &Vec<Vec<i32>>) -> bool,
>(
    heuristic: H,
    is_solid: S,
    grid: &Vec<Vec<i32>>,
    start: Pos,
    end: Pos,
    closed: Seq<Vec<bool>>,
    open: Seq<Vec<bool>>,
    g: Seq<Vec<i64>>,
    hv: Seq<Vec<i32>>,
    current: Pos,
)
    requires
        consistent(heuristic, grid, end),
        estimates_ok(heuristic, grid, end, open, hv),
        cell(g, start) == 0,
        cell(open, start) || cell(closed, start),
        frontier_ok(is_solid, grid, closed, open, g, None),
        settled_optimal(is_solid, grid, start, closed, g),
        in_bounds(grid@, current),
        cell(open, current),
        !cell(closed, current),
        forall|p: Pos|
            in_bounds(grid@, p) && #[trigger] cell(open, p) ==> priority(g, hv, current) <= priority(
                g,
                hv,
                p,
            ),
    ensures
        forall|path: Seq<Pos>|
            is_path(is_solid, grid, start, current, path) ==> cell(g, current) + 1 <= path.len(),
{
    assert forall|path: Seq<Pos>| is_path(is_solid, grid, start, current, path) implies cell(
        g,
        current,
    ) + 1 <= path.len() by {
        let i = lemma_first_open(is_solid, grid, start, closed, open, g, current, path, 0);
        let q = path[i];
        assert(is_free(is_solid, grid, q));
        assert(heuristic.ensures((q, end), cell(hv, q)));
        assert(heuristic.ensures((current, end), cell(hv, current)));
        let suffix = path.subrange(i, path.len() as int);
        assert forall|k: int| 0 <= k < suffix.len() implies is_free(
            is_solid,
            grid,
            #[trigger] suffix[k],
        ) by {
            assert(suffix[k] == path[i + k]);
        }
        assert forall|k: int| 0 <= k < suffix.len() - 1 implies adjacent(
            #[trigger] suffix[k],
            suffix[k + 1],
        ) by {
            assert(suffix[k] == path[i + k]);
            assert(suffix[k + 1] == path[i + k + 1]);
        }
        assert(suffix[suffix.len() - 1] == path[path.len() - 1]);
        assert(is_path(is_solid, grid, q, current, suffix));
        lemma_path_at_least_manhattan(is_solid, grid, q, current, suffix);
        assert(cell(hv, q) <= cell(hv, current) + manhattan(q, current));
        assert(priority(g, hv, current) <= priority(g, hv, q));
    }
}

/// Along the parent links back from a reached cell, costs count the steps from `start`.
pub(crate) proof fn lemma_chain_cost<S: Fn(usize, usize, &Vec<Vec<i32>>) -> bool>(
    is_solid: S,
    grid: &Vec<Vec<i32>>,
    start: Pos,
    closed: Seq<Vec<bool>>,
    open: Seq<Vec<bool>>,
    g: Seq<Vec<i64>>,
    came_from: Map<Pos, Pos>,
    path: Seq<Pos>,
    end: Pos,
    i: int,
)
    requires
        parents_ok(is_solid, grid, start, closed, open, g, came_from),
        is_parent_chain(came_from, path, end),
        path[0] == start,
        cell(g, start) == 0,
        0 <= i < path.len(),
    ensures
        cell(g, path[i]) == i,
    decreases i,
{
    reveal(parents_ok);
    if i > 0 {
        lemma_chain_cost(is_solid, grid, start, closed, open, g, came_from, path, end, i - 1);
        assert(came_from.contains_key(path[i]));
    }
}

/// Estimated total cost of `p`: its cost so far plus its heuristic value.
pub open spec fn priority(g: Seq<Vec<i64>>, hv: Seq<Vec<i32>>, p: Pos) -> int {
    cell(g, p) + cell(hv, p)
}

/// Index of the open cell with the lowest estimated total cost; among equals, the one that
/// was opened first.
pub(crate) fn pick_lowest(list: &Vec<(i32, i32)>, g: &Vec<Vec<i64>>, hv: &Vec<Vec<i32>>) -> (r: usize)
    requires
        list@.len() > 0,
        forall|i: int|
            #![trigger list@[i]]
            0 <= i < list@.len() ==> {
                let p = list@[i];
                &&& 0 <= p.0 < g@.len()
                &&& 0 <= p.0 < hv@.len()
                &&& 0 <= p.1 < g@[p.0 as int]@.len()
                &&& 0 <= p.1 < hv@[p.0 as int]@.len()
                &&& 0 <= cell(g@, p) <= 0x4000_0000_0000_0000
            },
    ensures
        r < list@.len(),
        forall|i: int|
            0 <= i < list@.len() ==> priority(g@, hv@, list@[r as int]) <= priority(
                g@,
                hv@,
                #[trigger] list@[i],
            ),
        forall|i: int|
            0 <= i < r ==> priority(g@, hv@, list@[r as int]) < priority(g@, hv@, #[trigger] list@[i]),
{
    let first = list[0];
    let mut best: usize = 0;
    let mut best_f: i64 = g[first.0 as usize][first.1 as usize] + hv[first.0 as usize][first.1 as usize] as i64;
    let mut j: usize = 1;
    while j < list.len()
        invariant
            1 <= j <= list@.len(),
            best < j,
            best_f == priority(g@, hv@, list@[best as int]),
            forall|i: int|
                #![trigger list@[i]]
                0 <= i < list@.len() ==> {
                    let p = list@[i];
                    &&& 0 <= p.0 < g@.len()
                    &&& 0 <= p.0 < hv@.len()
                    &&& 0 <= p.1 < g@[p.0 as int]@.len()
                    &&& 0 <= p.1 < hv@[p.0 as int]@.len()
                    &&& 0 <= cell(g@, p) <= 0x4000_0000_0000_0000
                },
            forall|i: int|
                0 <= i < j ==> best_f <= priority(g@, hv@, #[trigger] list@[i]),
            forall|i: int|
                0 <= i < best ==> best_f < priority(g@, hv@, #[trigger] list@[i]),
        decreases list@.len() - j,
    {
        let p = list[j];
        let f: i64 = g[p.0 as usize][p.1 as usize] + hv[p.0 as usize][p.1 as usize] as i64;
        if f < best_f {
            best = j;
            best_f = f;
        }
        j = j + 1;
    }
    best
}

/// Writes `x` into the cell `p` of `v`.
pub(crate) fn set_cell<T>(v: &mut Vec<Vec<T>>, p: Pos, x: T)
    requires
        0 <= p.0 < old(v)@.len(),
        0 <= p.1 < old(v)@[p.0 as int]@.len(),
    ensures
        final(v)@.len() == old(v)@.len(),
        forall|i: int|
            0 <= i < old(v)@.len() ==> (#[trigger] final(v)@[i])@.len() == old(v)@[i]@.len(),
        cell(final(v)@, p) == x,
        final(v)@[p.0 as int]@ == old(v)@[p.0 as int]@.update(p.1 as int, x),
        forall|i: int| 0 <= i < old(v)@.len() && i != p.0 ==> #[trigger] final(v)@[i] == old(v)@[i],
        forall|q: Pos|
            q != p && 0 <= q.0 < old(v)@.len() && 0 <= q.1 < old(v)@[q.0 as int]@.len()
                ==> #[trigger] cell(final(v)@, q) == cell(old(v)@, q),
{
    v[p.0 as usize][p.1 as usize] = x;
}

/// What holds of the search state between steps.
#[verifier::opaque]
pub(crate) open spec fn state_ok<S: Fn(usize, usize, &Vec<Vec<i32>>) -> bool>(
    is_solid: S,
    grid: &Vec<Vec<i32>>,
    start: Pos,
    closed: Seq<Vec<bool>>,
    open: Seq<Vec<bool>>,
    g: Seq<Vec<i64>>,
    hv: Seq<Vec<i32>>,
    came_from: Map<Pos, Pos>,
    list: Seq<Pos>,
    budget: int,
) -> bool {
    let height = grid@.len() as int;
    let width = grid@[0]@.len() as int;
    &&& shaped(closed, height, width)
    &&& shaped(open, height, width)
    &&& shaped(g, height, width)
    &&& shaped(hv, height, width)
    &&& is_free(is_solid, grid, start)
    &&& budget <= 0x4000_0000_0000_0000
    &&& parents_ok(is_solid, grid, start, closed, open, g, came_from)
    &&& open_list_ok(grid@, open, list)
    &&& costs_ok(grid@, start, closed, open, g, budget)
    &&& forall|p: Pos|
        #![trigger cell(open, p)]
        #![trigger cell(closed, p)]
        in_bounds(grid@, p) ==> !(cell(open, p) && cell(closed, p))
    &&& cell(open, start) || cell(closed, start)
}

/// Taking the cell at `best` off the open list and settling it keeps the search state
/// consistent, with that cell as the one whose neighbors are still to be reached.
#[verifier::rlimit(80)]
#[verifier::spinoff_prover]
pub(crate) proof fn lemma_settle<S: Fn(usize, usize, &Vec<Vec<i32>>) -> bool>(
    is_solid: S,
    grid: &Vec<Vec<i32>>,
    start: Pos,
    budget: int,
    closed0: Seq<Vec<bool>>,
    open0: Seq<Vec<bool>>,
    list0: Seq<Pos>,
    closed: Seq<Vec<bool>>,
    open: Seq<Vec<bool>>,
    g: Seq<Vec<i64>>,
    hv: Seq<Vec<i32>>,
    came_from: Map<Pos, Pos>,
    list: Seq<Pos>,
    best: int,
)
    requires
        is_rect(grid@),
        grid@.len() > 0,
        state_ok(is_solid, grid, start, closed0, open0, g, hv, came_from, list0, budget),
        frontier_ok(is_solid, grid, closed0, open0, g, None),
        0 <= best < list0.len(),
        list == list0.remove(best),
        shaped(closed, grid@.len() as int, grid@[0]@.len() as int),
        shaped(open, grid@.len() as int, grid@[0]@.len() as int),
        cell(closed, list0[best]),
        !cell(open, list0[best]),
        forall|p: Pos|
            in_bounds(grid@, p) && p != list0[best] ==> #[trigger] cell(closed, p) == cell(closed0, p),
        forall|p: Pos|
            in_bounds(grid@, p) && p != list0[best] ==> #[trigger] cell(open, p) == cell(open0, p),
        unsettled(closed) + 1 == unsettled(closed0),
    ensures
        state_ok(is_solid, grid, start, closed, open, g, hv, came_from, list, budget),
        frontier_ok(is_solid, grid, closed, open, g, Some(list0[best])),
        0 <= cell(g, list0[best]),
        cell(g, list0[best]) + unsettled(closed) < budget,
{
    reveal(state_ok);
    reveal(open_list_ok);
    reveal(costs_ok);
    reveal(parents_ok);
    let current = list0[best];
    assert(in_bounds(grid@, current) && cell(open0, current));
    assert(!cell(closed0, current));
    assert forall|p: Pos| in_bounds(grid@, p) && #[trigger] cell(open, p) implies list.contains(
        p,
    ) by {
        assert(p != current);
        assert(cell(open0, p));
        assert(list0.contains(p));
        let j = choose|j: int| 0 <= j < list0.len() && list0[j] == p;
        if j < best {
            assert(list[j] == p);
        } else {
            assert(j != best);
            assert(list[j - 1] == p);
        }
    }
    assert forall|i: int| 0 <= i < list.len() implies in_bounds(grid@, #[trigger] list[i])
        && cell(open, list[i]) by {
        if i < best {
            assert(list[i] == list0[i]);
            assert(list0[i] != list0[best as int]);
        } else {
            assert(list[i] == list0[i + 1]);
            assert(list0[i + 1] != list0[best as int]);
        }
    }
    assert forall|i: int, j: int| 0 <= i < j < list.len() implies list[i] != list[j] by {
        let i0 = if i < best { i } else { i + 1 };
        let j0 = if j < best { j } else { j + 1 };
        assert(list[i] == list0[i0]);
        assert(list[j] == list0[j0]);
    }
    assert(cell(g, current) + unsettled(closed0) <= budget);
    assert forall|p: Pos|
        #![trigger cell(g, p)]
        in_bounds(grid@, p) && (cell(open, p) || cell(closed, p)) implies 0 <= cell(g, p)
        && cell(g, p) + unsettled(closed) <= budget by {
        if p != current {
            assert(cell(open0, p) || cell(closed0, p));
        }
    }
    assert forall|p: Pos| #[trigger] came_from.contains_key(p) implies {
        &&& is_free(is_solid, grid, p)
        &&& in_bounds(grid@, came_from[p])
        &&& adjacent(came_from[p], p)
        &&& cell(closed, came_from[p])
        &&& cell(open, p) || cell(closed, p)
        &&& cell(g, came_from[p]) + 1 == cell(g, p)
    } by {
        let q = came_from[p];
        assert(cell(closed0, q));
        assert(cell(open0, p) || cell(closed0, p));
        if q != current {
            assert(cell(closed, q) == cell(closed0, q));
        }
        if p != current {
            assert(cell(closed, p) == cell(closed0, p));
            assert(cell(open, p) == cell(open0, p));
        }
    }
    assert forall|p: Pos|
        #![trigger cell(open, p)]
        #![trigger cell(closed, p)]
        in_bounds(grid@, p) && (cell(open, p) || cell(closed, p)) implies p == start
        || came_from.contains_key(p) by {
        if p != current {
            assert(cell(open0, p) || cell(closed0, p));
        }
    }
    assert forall|p: Pos, q: Pos|
        #![trigger cell(closed, p), is_free(is_solid, grid, q)]
        in_bounds(grid@, p) && cell(closed, p) && Some(current) != Some(p) && is_free(
            is_solid,
            grid,
            q,
        ) && adjacent(p, q) implies cell(closed, q) || cell(open, q) by {
        assert(cell(closed0, p));
        assert(cell(closed0, q) || (cell(open0, q) && cell(g, q) <= cell(g, p) + 1));
    }
    assert forall|p: Pos|
        #![trigger cell(open, p)]
        #![trigger cell(closed, p)]
        in_bounds(grid@, p) implies !(cell(open, p) && cell(closed, p)) by {
        if p != current {
            assert(!(cell(open0, p) && cell(closed0, p)));
        }
    }
}

/// Takes the open cell of lowest estimated total cost off the open list and settles it.
#[verifier::rlimit(60)]
#[verifier::spinoff_prover]
pub(crate) fn settle_lowest<S: Fn(usize, usize, &Vec<Vec<i32>>) -> bool + Copy>(
    is_solid: S,
    grid: &Vec<Vec<i32>>,
    Ghost(start): Ghost<Pos>,
    Ghost(budget): Ghost<int>,
    closed: &mut Vec<Vec<bool>>,
    open: &mut Vec<Vec<bool>>,
    g: &Vec<Vec<i64>>,
    hv: &Vec<Vec<i32>>,
    came_from: &BTreeMap<(i32, i32), (i32, i32)>,
    list: &mut Vec<(i32, i32)>,
) -> (current: (i32, i32))
    requires
        is_rect(grid@),
        grid@.len() > 0,
        state_ok(
            is_solid,
            grid,
            start,
            old(closed)@,
            old(open)@,
            g@,
            hv@,
            came_from@,
            old(list)@,
            budget,
        ),
        frontier_ok(is_solid, grid, old(closed)@, old(open)@, g@, None),
        old(list)@.len() > 0,
    ensures
        in_bounds(grid@, current),
        state_ok(
            is_solid,
            grid,
            start,
            final(closed)@,
            final(open)@,
            g@,
            hv@,
            came_from@,
            final(list)@,
            budget,
        ),
        frontier_ok(is_solid, grid, final(closed)@, final(open)@, g@, Some(current)),
        cell(final(closed)@, current),
        unsettled(final(closed)@) + 1 == unsettled(old(closed)@),
        0 <= cell(g@, current),
        cell(g@, current) + unsettled(final(closed)@) < budget,
        forall|p: Pos|
            in_bounds(grid@, p) && p != current ==> cell(final(closed)@, p) == cell(
                old(closed)@,
                p,
            ),
        cell(old(open)@, current),
        !cell(old(closed)@, current),
        forall|p: Pos| in_bounds(grid@, p) && #[trigger] cell(final(open)@, p) ==> cell(old(open)@, p),
        forall|p: Pos|
            in_bounds(grid@, p) && #[trigger] cell(old(open)@, p) ==> priority(g@, hv@, current)
                <= priority(g@, hv@, p),
{
    reveal(state_ok);
    reveal(open_list_ok);
    reveal(costs_ok);
    let ghost closed0 = closed@;
    let ghost open0 = open@;
    let ghost list0 = list@;
    proof {
        assert forall|i: int|
            #![trigger list@[i]]
            0 <= i < list@.len() implies {
                let p = list@[i];
                &&& 0 <= p.0 < g@.len()
                &&& 0 <= p.0 < hv@.len()
                &&& 0 <= p.1 < g@[p.0 as int]@.len()
                &&& 0 <= p.1 < hv@[p.0 as int]@.len()
                &&& 0 <= cell(g@, p) <= 0x4000_0000_0000_0000
            } by {
            let p = list@[i];
            assert(in_bounds(grid@, p) && cell(open@, p));
            assert(cell(g@, p) + unsettled(closed@) <= budget);
        }
    }
    let best = pick_lowest(list, g, hv);
    let current = list.remove(best);
    assert(in_bounds(grid@, current) && cell(open0, current));
    assert(!cell(closed0, current));
    set_cell(open, current, false);
    set_cell(closed, current, true);
    proof {
        lemma_unsettled_set(closed0, closed@, current.0 as int, current.1 as int);
    }
    proof {
        assert forall|p: Pos| in_bounds(grid@, p) && #[trigger] cell(open0, p) implies priority(
            g@,
            hv@,
            current,
        ) <= priority(g@, hv@, p) by {
            assert(list0.contains(p));
            let j = choose|j: int| 0 <= j < list0.len() && list0[j] == p;
            assert(priority(g@, hv@, list0[best as int]) <= priority(g@, hv@, list0[j]));
        }
        lemma_settle(is_solid, grid, start, budget, closed0, open0, list0, closed@, open@, g@, hv@, came_from@, list@, best as int);
    }
    current
}

/// Opening `nb` keeps the open list in step with the open cells.
pub(crate) proof fn lemma_reach_list(
    grid: &Vec<Vec<i32>>,
    open0: Seq<Vec<bool>>,
    list0: Seq<Pos>,
    open: Seq<Vec<bool>>,
    list: Seq<Pos>,
    nb: Pos,
)
    requires
        open_list_ok(grid@, open0, list0),
        in_bounds(grid@, nb),
        cell(open, nb),
        forall|p: Pos|
            in_bounds(grid@, p) && p != nb ==> #[trigger] cell(open, p) == cell(open0, p),
        cell(open0, nb) ==> list == list0,
        !cell(open0, nb) ==> list == list0.push(nb),
    ensures
        open_list_ok(grid@, open, list),
{
    reveal(open_list_ok);
    if !cell(open0, nb) {
        assert forall|p: Pos| in_bounds(grid@, p) && #[trigger] cell(open, p) implies list.contains(p) by {
            if p == nb {
                assert(list[list.len() - 1] == nb);
            } else {
                assert(cell(open0, p));
                let j = choose|j: int| 0 <= j < list0.len() && list0[j] == p;
                assert(list[j] == p);
            }
        }
        assert forall|i: int| 0 <= i < list.len() implies in_bounds(grid@, #[trigger] list[i])
            && cell(open, list[i]) by {
            if i < list0.len() {
                assert(list[i] == list0[i]);
                assert(cell(open0, list0[i]));
            }
        }
        assert forall|i: int, j: int| 0 <= i < j < list.len() implies list[i] != list[j] by {
            if j == list0.len() {
                assert(list[i] == list0[i]);
                assert(cell(open0, list0[i]));
            } else {
                assert(list[i] == list0[i] && list[j] == list0[j]);
            }
        }
    } else {
        assert forall|p: Pos| in_bounds(grid@, p) && #[trigger] cell(open, p) implies list.contains(p) by {
            assert(cell(open0, p));
        }
        assert forall|i: int| 0 <= i < list.len() implies in_bounds(grid@, #[trigger] list[i])
            && cell(open, list[i]) by {
            assert(cell(open0, list[i]));
        }
    }
}

/// Giving `nb` the parent `current` at one more than the cost of `current` keeps the parent
/// links consistent.
#[verifier::rlimit(60)]
pub(crate) proof fn lemma_reach_parents<S: Fn(usize, usize, &Vec<Vec<i32>>) -> bool>(
    is_solid: S,
    grid: &Vec<Vec<i32>>,
    start: Pos,
    closed: Seq<Vec<bool>>,
    open0: Seq<Vec<bool>>,
    g0: Seq<Vec<i64>>,
    cf0: Map<Pos, Pos>,
    open: Seq<Vec<bool>>,
    g: Seq<Vec<i64>>,
    cf: Map<Pos, Pos>,
    current: Pos,
    nb: Pos,
)
    requires
        parents_ok(is_solid, grid, start, closed, open0, g0, cf0),
        in_bounds(grid@, current),
        cell(closed, current),
        is_free(is_solid, grid, nb),
        adjacent(current, nb),
        !cell(closed, nb),
        nb != start,
        nb != current,
        cell(open, nb),
        cell(g, nb) == cell(g0, current) + 1,
        forall|p: Pos|
            in_bounds(grid@, p) && p != nb ==> #[trigger] cell(open, p) == cell(open0, p),
        forall|p: Pos| in_bounds(grid@, p) && p != nb ==> #[trigger] cell(g, p) == cell(g0, p),
        cf == cf0.insert(nb, current),
    ensures
        parents_ok(is_solid, grid, start, closed, open, g, cf),
{
    reveal(parents_ok);
    assert forall|p: Pos| #[trigger] cf.contains_key(p) implies {
        &&& is_free(is_solid, grid, p)
        &&& in_bounds(grid@, cf[p])
        &&& adjacent(cf[p], p)
        &&& cell(closed, cf[p])
        &&& cell(open, p) || cell(closed, p)
        &&& cell(g, cf[p]) + 1 == cell(g, p)
    } by {
        if p != nb {
            assert(cf0.contains_key(p));
            let q = cf0[p];
            assert(cell(closed, q));
            assert(q != nb);
            assert(in_bounds(grid@, q));
            assert(cell(g, q) == cell(g0, q));
            assert(in_bounds(grid@, p));
            assert(cell(g, p) == cell(g0, p));
            assert(cell(open0, p) || cell(closed, p));
            assert(cell(open, p) == cell(open0, p));
        } else {
            assert(cell(g, current) == cell(g0, current));
        }
    }
    assert forall|p: Pos|
        #![trigger cell(open, p)]
        #![trigger cell(closed, p)]
        in_bounds(grid@, p) && (cell(open, p) || cell(closed, p)) implies p == start
        || cf.contains_key(p) by {
        if p != nb {
            assert(cell(open, p) == cell(open0, p));
            assert(cell(open0, p) || cell(closed, p));
        }
    }
}

/// The search state stays consistent when the free cell `nb` next to the settled cell
/// `current` takes `current` as its parent at one more than its cost, being either opened
/// for the first time (and listed) or already open at a higher cost.
#[verifier::rlimit(60)]
#[verifier::spinoff_prover]
pub(crate) proof fn lemma_reach<S: Fn(usize, usize, &Vec<Vec<i32>>) -> bool>(
    is_solid: S,
    grid: &Vec<Vec<i32>>,
    start: Pos,
    budget: int,
    closed: Seq<Vec<bool>>,
    open0: Seq<Vec<bool>>,
    g0: Seq<Vec<i64>>,
    hv0: Seq<Vec<i32>>,
    cf0: Map<Pos, Pos>,
    list0: Seq<Pos>,
    open: Seq<Vec<bool>>,
    g: Seq<Vec<i64>>,
    hv: Seq<Vec<i32>>,
    cf: Map<Pos, Pos>,
    list: Seq<Pos>,
    current: Pos,
    nb: Pos,
)
    requires
        state_ok(is_solid, grid, start, closed, open0, g0, hv0, cf0, list0, budget),
        in_bounds(grid@, current),
        cell(closed, current),
        is_free(is_solid, grid, nb),
        adjacent(current, nb),
        !cell(closed, nb),
        0 <= cell(g0, current),
        cell(g0, current) + unsettled(closed) < budget,
        shaped(open, grid@.len() as int, grid@[0]@.len() as int),
        shaped(g, grid@.len() as int, grid@[0]@.len() as int),
        shaped(hv, grid@.len() as int, grid@[0]@.len() as int),
        cell(open, nb),
        cell(g, nb) == cell(g0, current) + 1,
        forall|p: Pos|
            in_bounds(grid@, p) && p != nb ==> #[trigger] cell(open, p) == cell(open0, p),
        forall|p: Pos| in_bounds(grid@, p) && p != nb ==> #[trigger] cell(g, p) == cell(g0, p),
        cf == cf0.insert(nb, current),
        cell(open0, nb) ==> list == list0 && cell(g, nb) < cell(g0, nb),
        !cell(open0, nb) ==> list == list0.push(nb),
    ensures
        state_ok(is_solid, grid, start, closed, open, g, hv, cf, list, budget),
{
    reveal(state_ok);
    reveal(costs_ok);
    assert(nb != current);
    assert(nb != start) by {
        if nb == start {
            assert(cell(open0, start));
            assert(cell(g0, start) == 0);
        }
    }
    lemma_reach_list(grid, open0, list0, open, list, nb);
    reveal(costs_ok);
    assert forall|p: Pos|
        #![trigger cell(g, p)]
        in_bounds(grid@, p) && (cell(open, p) || cell(closed, p)) implies 0 <= cell(g, p)
        && cell(g, p) + unsettled(closed) <= budget by {
        if p != nb {
            assert(cell(open0, p) || cell(closed, p));
            assert(cell(g, p) == cell(g0, p));
        }
    }
    lemma_reach_parents(is_solid, grid, start, closed, open0, g0, cf0, open, g, cf, current, nb);
    assert forall|p: Pos|
        #![trigger cell(open, p)]
        #![trigger cell(closed, p)]
        in_bounds(grid@, p) implies !(cell(open, p) && cell(closed, p)) by {
        if p != nb {
            assert(cell(open, p) == cell(open0, p));
            assert(!(cell(open0, p) && cell(closed, p)));
        }
    }
    assert(cell(g, start) == 0);
    assert(cell(open, start) || cell(closed, start)) by {
        assert(cell(open, start) == cell(open0, start));
    }
}

/// Reaches the free cell `nb` next to the settled cell `current`: a cell reached for the first
/// time is opened with `current` as its parent; an open one takes `current` as its parent when
/// that makes it strictly cheaper; a settled one is left alone.
#[verifier::rlimit(100)]
#[verifier::spinoff_prover]
pub(crate) fn visit_neighbor<
    H: Fn((i32, i32), (i32, i32)) -> i32,
    S: Fn(usize, usize, &Vec<Vec<i32>>) -> bool + Copy,
>(
    nb: (i32, i32),
    current: (i32, i32),
    end: (i32, i32),
    grid: &Vec<Vec<i32>>,
    heuristic: &H,
    is_solid: S,
    Ghost(start): Ghost<Pos>,
    Ghost(budget): Ghost<int>,
    closed: &Vec<Vec<bool>>,
    open: &mut Vec<Vec<bool>>,
    g: &mut Vec<Vec<i64>>,
    hv: &mut Vec<Vec<i32>>,
    came_from: &mut BTreeMap<(i32, i32), (i32, i32)>,
    list: &mut Vec<(i32, i32)>,
)
    requires
        is_rect(grid@),
        grid@.len() > 0,
        forall|p: Pos| in_bounds(grid@, p) ==> #[trigger] heuristic.requires((p, end)),
        state_ok(
            is_solid,
            grid,
            start,
            closed@,
            old(open)@,
            old(g)@,
            old(hv)@,
            old(came_from)@,
            old(list)@,
            budget,
        ),
        in_bounds(grid@, current),
        cell(closed@, current),
        is_free(is_solid, grid, nb),
        adjacent(current, nb),
        0 <= cell(old(g)@, current),
        cell(old(g)@, current) + unsettled(closed@) < budget,
        estimates_ok(*heuristic, grid, end, old(open)@, old(hv)@),
    ensures
        estimates_ok(*heuristic, grid, end, final(open)@, final(hv)@),
        state_ok(
            is_solid,
            grid,
            start,
            closed@,
            final(open)@,
            final(g)@,
            final(hv)@,
            final(came_from)@,
            final(list)@,
            budget,
        ),
        cell(closed@, nb) || (cell(final(open)@, nb) && cell(final(g)@, nb) <= cell(old(g)@, current)
            + 1),
        forall|p: Pos| in_bounds(grid@, p) && #[trigger] cell(old(open)@, p) ==> cell(final(open)@, p),
        forall|p: Pos|
            in_bounds(grid@, p) && cell(old(open)@, p) ==> #[trigger] cell(final(g)@, p) <= cell(
                old(g)@,
                p,
            ),
        forall|p: Pos|
            in_bounds(grid@, p) && cell(closed@, p) ==> #[trigger] cell(final(g)@, p) == cell(
                old(g)@,
                p,
            ),
{
    broadcast use vstd::laws_cmp::group_laws_cmp;
    broadcast use vstd::std_specs::btree::group_btree_axioms;

    let ghost open0 = open@;
    let ghost g0 = g@;
    let ghost hv0 = hv@;
    let ghost cf0 = came_from@;
    let ghost list0 = list@;
    proof {
        reveal(state_ok);
    }
    let nr = nb.0 as usize;
    let nc = nb.1 as usize;
    if closed[nr][nc] {
        return;
    }
    let tentative = g[current.0 as usize][current.1 as usize] + 1;
    if !open[nr][nc] {
        set_cell(open, nb, true);
        list.push(nb);
        let h = heuristic(nb, end);
        set_cell(hv, nb, h);
    } else if tentative >= g[nr][nc] {
        return;
    }
    came_from.insert(nb, current);
    set_cell(g, nb, tentative);
    proof {
        assert forall|p: Pos| in_bounds(grid@, p) && #[trigger] cell(open@, p) implies heuristic.ensures(
            (p, end),
            cell(hv@, p),
        ) by {
            if p != nb {
                assert(cell(open0, p));
                assert(cell(hv@, p) == cell(hv0, p));
            }
        }
        assert(nb != current);
        lemma_reach(
            is_solid,
            grid,
            start,
            budget,
            closed@,
            open0,
            g0,
            hv0,
            cf0,
            list0,
            open@,
            g@,
            hv@,
            came_from@,
            list@,
            current,
            nb,
        );
    }
}

/// The state at the start of the search: only `start` is open, at cost zero.
pub(crate) proof fn lemma_initial_state<S: Fn(usize, usize, &Vec<Vec<i32>>) -> bool>(
    is_solid: S,
    grid: &Vec<Vec<i32>>,
    start: Pos,
    closed: Seq<Vec<bool>>,
    open: Seq<Vec<bool>>,
    g: Seq<Vec<i64>>,
    hv: Seq<Vec<i32>>,
    came_from: Map<Pos, Pos>,
    list: Seq<Pos>,
    budget: int,
)
    requires
        is_rect(grid@),
        grid@.len() > 0,
        is_free(is_solid, grid, start),
        shaped(closed, grid@.len() as int, grid@[0]@.len() as int),
        shaped(open, grid@.len() as int, grid@[0]@.len() as int),
        shaped(g, grid@.len() as int, grid@[0]@.len() as int),
        shaped(hv, grid@.len() as int, grid@[0]@.len() as int),
        forall|i: int, j: int|
            0 <= i < grid@.len() && 0 <= j < grid@[0]@.len() ==> !#[trigger] closed[i]@[j],
        forall|i: int, j: int|
            0 <= i < grid@.len() && 0 <= j < grid@[0]@.len() ==> #[trigger] g[i]@[j] == 0,
        cell(open, start),
        forall|p: Pos| in_bounds(grid@, p) && p != start ==> !#[trigger] cell(open, p),
        came_from == Map::<Pos, Pos>::empty(),
        list == seq![start],
        budget == unsettled(closed),
        budget <= 0x4000_0000_0000_0000,
    ensures
        state_ok(is_solid, grid, start, closed, open, g, hv, came_from, list, budget),
        frontier_ok(is_solid, grid, closed, open, g, None),
{
    reveal(state_ok);
    reveal(parents_ok);
    reveal(open_list_ok);
    reveal(costs_ok);
    assert(list[0] == start);
    assert forall|p: Pos| in_bounds(grid@, p) && #[trigger] cell(open, p) implies list.contains(p) by {
        assert(p == start);
    }
    assert forall|p: Pos|
        #![trigger cell(g, p)]
        in_bounds(grid@, p) && (cell(open, p) || cell(closed, p)) implies 0 <= cell(g, p)
        && cell(g, p) + unsettled(closed) <= budget by {
        assert(g[p.0 as int]@[p.1 as int] == 0);
    }
    assert forall|p: Pos|
        #![trigger cell(open, p)]
        #![trigger cell(closed, p)]
        in_bounds(grid@, p) && (cell(open, p) || cell(closed, p)) implies p == start
        || came_from.contains_key(p) by {
        assert(!closed[p.0 as int]@[p.1 as int]);
    }
    assert forall|p: Pos|
        #![trigger cell(open, p)]
        #![trigger cell(closed, p)]
        in_bounds(grid@, p) implies !(cell(open, p) && cell(closed, p)) by {
        assert(!closed[p.0 as int]@[p.1 as int]);
    }
    assert forall|p: Pos, q: Pos|
        #![trigger cell(closed, p), is_free(is_solid, grid, q)]
        in_bounds(grid@, p) && cell(closed, p) && None::<Pos> != Some(p) && is_free(is_solid, grid, q)
            && adjacent(p, q) implies cell(closed, q) || (cell(open, q) && cell(g, q) <= cell(g, p)
            + 1) by {
        assert(!closed[p.0 as int]@[p.1 as int]);
    }
    assert(cell(g, start) == 0) by {
        assert(g[start.0 as int]@[start.1 as int] == 0);
    }
}

/// Settling `current` keeps every settled cost optimal, when the heuristic is consistent.
pub(crate) proof fn lemma_settle_keeps_optimal<
    H: Fn((i32, i32), (i32, i32)) -> i32,
    S: Fn(usize, usize, &Vec<Vec<i32>>) -> bool,
>(
    heuristic: H,
    is_solid: S,
    grid: &Vec<Vec<i32>>,
    start: Pos,
    end: Pos,
    closed0: Seq<Vec<bool>>,
    open0: Seq<Vec<bool>>,
    list0: Seq<Pos>,
    came_from: Map<Pos, Pos>,
    budget: int,
    closed: Seq<Vec<bool>>,
    g: Seq<Vec<i64>>,
    hv: Seq<Vec<i32>>,
    current: Pos,
)
    requires
        state_ok(is_solid, grid, start, closed0, open0, g, hv, came_from, list0, budget),
        consistent(heuristic, grid, end),
        estimates_ok(heuristic, grid, end, open0, hv),
        frontier_ok(is_solid, grid, closed0, open0, g, None),
        settled_optimal(is_solid, grid, start, closed0, g),
        in_bounds(grid@, current),
        cell(open0, current),
        !cell(closed0, current),
        forall|p: Pos|
            in_bounds(grid@, p) && #[trigger] cell(open0, p) ==> priority(g, hv, current) <= priority(
                g,
                hv,
                p,
            ),
        forall|p: Pos| in_bounds(grid@, p) && p != current ==> cell(closed, p) == cell(closed0, p),
    ensures
        settled_optimal(is_solid, grid, start, closed, g),
{
    reveal(state_ok);
    reveal(costs_ok);
    lemma_settle_optimal(heuristic, is_solid, grid, start, end, closed0, open0, g, hv, current);
    assert forall|p: Pos, path: Seq<Pos>|
        #![trigger cell(closed, p), is_path(is_solid, grid, start, p, path)]
        in_bounds(grid@, p) && cell(closed, p) && is_path(is_solid, grid, start, p, path) implies cell(
        g,
        p,
    ) + 1 <= path.len() by {
        if p != current {
            assert(cell(closed0, p));
        }
    }
}

} // verus!
