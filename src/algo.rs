use crate::grid::filled_rows;
use crate::search_state::{cell, costs_ok, estimates_ok, frontier_ok, lemma_chain_cost, lemma_chain_ends, lemma_found_path, lemma_initial_state, lemma_no_path_from_blocked, lemma_path_settled, lemma_settle_keeps_optimal, lemma_unsettled_bound, open_list_ok, set_cell, settle_lowest, settled_optimal, state_ok, unsettled, visit_neighbor};
use std::collections::BTreeMap;
use vstd::prelude::*;

verus! {

/// A cell of the grid as (row, column).
pub type Pos = (i32, i32);

pub open spec fn abs_diff(a: i32, b: i32) -> int {
    if a >= b {
        a - b
    } else {
        b - a
    }
}

/// Sum of the absolute differences of the two coordinates.
pub open spec fn manhattan(a: Pos, b: Pos) -> int {
    abs_diff(a.0, b.0) + abs_diff(a.1, b.1)
}

/// Largest of the absolute differences of the two coordinates.
pub open spec fn chebyshev(a: Pos, b: Pos) -> int {
    let dr = abs_diff(a.0, b.0);
    let dc = abs_diff(a.1, b.1);
    if dr >= dc {
        dr
    } else {
        dc
    }
}

/// The Manhattan distance `|a.0 - b.0| + |a.1 - b.1|`.
pub fn manhattan_distance(a: (i32, i32), b: (i32, i32)) -> (r: i32)
    requires
        manhattan(a, b) <= i32::MAX,
    ensures
        r == manhattan(a, b),
{
    let dr: i64 = if a.0 >= b.0 { a.0 as i64 - b.0 as i64 } else { b.0 as i64 - a.0 as i64 };
    let dc: i64 = if a.1 >= b.1 { a.1 as i64 - b.1 as i64 } else { b.1 as i64 - a.1 as i64 };
    (dr + dc) as i32
}

/// The diagonal (Chebyshev) distance `max(|a.0 - b.0|, |a.1 - b.1|)`.
pub fn diagonal_distance(a: (i32, i32), b: (i32, i32)) -> (r: i32)
    requires
        chebyshev(a, b) <= i32::MAX,
    ensures
        r == chebyshev(a, b),
{
    let dr: i64 = if a.0 >= b.0 { a.0 as i64 - b.0 as i64 } else { b.0 as i64 - a.0 as i64 };
    let dc: i64 = if a.1 >= b.1 { a.1 as i64 - b.1 as i64 } else { b.1 as i64 - a.1 as i64 };
    if dr >= dc {
        dr as i32
    } else {
        dc as i32
    }
}

/// Following `k` parent links from `p`.
pub open spec fn ancestor(m: Map<Pos, Pos>, p: Pos, k: nat) -> Pos
    decreases k,
{
    if k == 0 {
        p
    } else {
        ancestor(m, m[p], (k - 1) as nat)
    }
}

/// Following parent links from `p`, the `n`-th position is the first one without a parent.
pub open spec fn chain_ends_at(m: Map<Pos, Pos>, p: Pos, n: nat) -> bool {
    &&& forall|k: nat| k < n ==> m.contains_key(#[trigger] ancestor(m, p, k))
    &&& !m.contains_key(ancestor(m, p, n))
}

/// `path` runs along parent links up to `current`: its first position has no parent, and
/// the parent of every later position is the one just before it.
pub open spec fn is_parent_chain(m: Map<Pos, Pos>, path: Seq<Pos>, current: Pos) -> bool {
    &&& path.len() >= 1
    &&& path.last() == current
    &&& !m.contains_key(path[0])
    &&& forall|i: int|
        1 <= i < path.len() ==> m.contains_key(#[trigger] path[i]) && m[path[i]] == path[i - 1]
}

proof fn lemma_ancestor_step(m: Map<Pos, Pos>, p: Pos, k: nat)
    ensures
        ancestor(m, p, k + 1) == m[ancestor(m, p, k)],
    decreases k,
{
    assert(ancestor(m, p, k + 1) == ancestor(m, m[p], k));
    if k > 0 {
        lemma_ancestor_step(m, m[p], (k - 1) as nat);
        assert(ancestor(m, p, k) == ancestor(m, m[p], (k - 1) as nat));
    }
}

/// Walks the parent links of `came_from` back from `current` to the position that has
/// no parent, and returns the positions met, from that root to `current`.
pub fn reconstruct_path(came_from: &BTreeMap<(i32, i32), (i32, i32)>, current: (i32, i32)) -> (r:
    Vec<(i32, i32)>)
    requires
        exists|n: nat| chain_ends_at(came_from@, current, n),
    ensures
        is_parent_chain(came_from@, r@, current),
{
    broadcast use vstd::laws_cmp::group_laws_cmp;
    broadcast use vstd::std_specs::btree::group_btree_axioms;

    let ghost m = came_from@;
    let ghost n = choose|n: nat| chain_ends_at(m, current, n);
    let mut walked: Vec<(i32, i32)> = vec![current];
    let mut cur = current;
    let mut i: usize = 0;
    while came_from.contains_key(&cur)
        invariant
            m == came_from@,
            chain_ends_at(m, current, n),
            i <= n,
            walked@.len() == i + 1,
            cur == ancestor(m, current, i as nat),
            forall|k: int| 0 <= k <= i ==> #[trigger] walked@[k] == ancestor(m, current, k as nat),
        decreases n - i,
    {
        proof {
            if i == n {
                assert(!m.contains_key(ancestor(m, current, n)));
            }
            lemma_ancestor_step(m, current, i as nat);
        }
        cur = *came_from.get(&cur).unwrap();
        walked.push(cur);
        i = walked.len() - 1;
        proof {
            if i > n {
                assert(m.contains_key(ancestor(m, current, n)));
            }
        }
    }
    let mut total_path: Vec<(i32, i32)> = Vec::new();
    let mut j: usize = walked.len();
    while j > 0
        invariant
            j <= walked@.len(),
            walked@.len() == i + 1,
            total_path@.len() == walked@.len() - j,
            forall|k: int|
                0 <= k < total_path@.len() ==> #[trigger] total_path@[k] == walked@[walked@.len()
                    - 1 - k],
        decreases j,
    {
        j = j - 1;
        total_path.push(walked[j]);
    }
    proof {
        assert forall|k: int| 1 <= k < total_path@.len() implies m.contains_key(
            #[trigger] total_path@[k],
        ) && m[total_path@[k]] == total_path@[k - 1] by {
            let a = (i - k) as nat;
            lemma_ancestor_step(m, current, a);
            assert(a < n);
        }
    }
    total_path
}

/// Every row of `grid` is as long as the first, and both sides fit in a coordinate.
pub open spec fn is_rect(grid: Seq<Vec<i32>>) -> bool {
    &&& grid.len() <= i32::MAX
    &&& grid.len() > 0 ==> grid[0]@.len() <= i32::MAX
    &&& forall|i: int| 0 <= i < grid.len() ==> #[trigger] grid[i]@.len() == grid[0]@.len()
}

/// `p` names a cell of `grid`.
pub open spec fn in_bounds(grid: Seq<Vec<i32>>, p: Pos) -> bool {
    0 <= p.0 < grid.len() && 0 <= p.1 < grid[0]@.len()
}

/// The solidity predicate may be asked about every cell of `grid` and gives one answer per cell.
pub open spec fn solidity_ok<S: Fn(usize, usize, &Vec<Vec<i32>>) -> bool>(
    is_solid: S,
    grid: &Vec<Vec<i32>>,
) -> bool {
    &&& forall|r: usize, c: usize|
        r < grid@.len() && c < grid@[0]@.len() ==> #[trigger] is_solid.requires((r, c, grid))
    &&& forall|r: usize, c: usize, a: bool, b: bool|
        #[trigger] is_solid.ensures((r, c, grid), a) && #[trigger] is_solid.ensures((r, c, grid), b)
            ==> a == b
}

/// `p` is a cell of `grid` that the predicate does not call solid.
pub open spec fn is_free<S: Fn(usize, usize, &Vec<Vec<i32>>) -> bool>(
    is_solid: S,
    grid: &Vec<Vec<i32>>,
    p: Pos,
) -> bool {
    in_bounds(grid@, p) && is_solid.ensures((p.0 as usize, p.1 as usize, grid), false)
}

/// `p` and `q` are one orthogonal step apart.
pub open spec fn adjacent(p: Pos, q: Pos) -> bool {
    manhattan(p, q) == 1
}

pub open spec fn keep_if_free<S: Fn(usize, usize, &Vec<Vec<i32>>) -> bool>(
    s: Seq<Pos>,
    is_solid: S,
    grid: &Vec<Vec<i32>>,
    q: Pos,
) -> Seq<Pos> {
    if is_free(is_solid, grid, q) {
        s.push(q)
    } else {
        s
    }
}

/// The free cells next to `p`, in the order up, left, down, right.
pub open spec fn free_neighbors<S: Fn(usize, usize, &Vec<Vec<i32>>) -> bool>(
    is_solid: S,
    grid: &Vec<Vec<i32>>,
    p: Pos,
) -> Seq<Pos> {
    let up = ((p.0 - 1) as i32, p.1);
    let left = (p.0, (p.1 - 1) as i32);
    let down = ((p.0 + 1) as i32, p.1);
    let right = (p.0, (p.1 + 1) as i32);
    keep_if_free(
        keep_if_free(
            keep_if_free(keep_if_free(Seq::empty(), is_solid, grid, up), is_solid, grid, left),
            is_solid,
            grid,
            down,
        ),
        is_solid,
        grid,
        right,
    )
}

/// `path` leads from `start` to `end` through free cells of `grid`, one orthogonal step at a
/// time.
pub open spec fn is_path<S: Fn(usize, usize, &Vec<Vec<i32>>) -> bool>(
    is_solid: S,
    grid: &Vec<Vec<i32>>,
    start: Pos,
    end: Pos,
    path: Seq<Pos>,
) -> bool {
    &&& path.len() >= 1
    &&& path[0] == start
    &&& path.last() == end
    &&& forall|i: int| 0 <= i < path.len() ==> is_free(is_solid, grid, #[trigger] path[i])
    &&& forall|i: int| 0 <= i < path.len() - 1 ==> adjacent(#[trigger] path[i], path[i + 1])
}

/// The cells listed by `free_neighbors` are exactly the free cells one step away from `p`.
pub proof fn lemma_free_neighbors<S: Fn(usize, usize, &Vec<Vec<i32>>) -> bool>(
    is_solid: S,
    grid: &Vec<Vec<i32>>,
    p: Pos,
)
    requires
        is_rect(grid@),
        in_bounds(grid@, p),
    ensures
        forall|i: int|
            0 <= i < free_neighbors(is_solid, grid, p).len() ==> is_free(
                is_solid,
                grid,
                #[trigger] free_neighbors(is_solid, grid, p)[i],
            ) && adjacent(p, free_neighbors(is_solid, grid, p)[i]),
        forall|q: Pos|
            is_free(is_solid, grid, q) && adjacent(p, q) ==> #[trigger] free_neighbors(
                is_solid,
                grid,
                p,
            ).contains(q),
{
    let up = ((p.0 - 1) as i32, p.1);
    let left = (p.0, (p.1 - 1) as i32);
    let down = ((p.0 + 1) as i32, p.1);
    let right = (p.0, (p.1 + 1) as i32);
    let s0: Seq<Pos> = Seq::empty();
    let s1 = keep_if_free(s0, is_solid, grid, up);
    let s2 = keep_if_free(s1, is_solid, grid, left);
    let s3 = keep_if_free(s2, is_solid, grid, down);
    let s4 = keep_if_free(s3, is_solid, grid, right);
    assert(s4 == free_neighbors(is_solid, grid, p));
    assert forall|q: Pos| is_free(is_solid, grid, q) && adjacent(p, q) implies s4.contains(q) by {
        if q == up {
            assert(s1[s1.len() - 1] == q);
            assert(s4[s1.len() - 1] == q);
        } else if q == left {
            assert(s2[s2.len() - 1] == q);
            assert(s4[s2.len() - 1] == q);
        } else if q == down {
            assert(s3[s3.len() - 1] == q);
            assert(s4[s3.len() - 1] == q);
        } else {
            assert(q == right);
            assert(s4[s4.len() - 1] == q);
        }
    }
}

/// At a cell whose four orthogonal neighbors are all free, the free neighbors are exactly
/// those four, in the order up, left, down, right.
pub proof fn lemma_open_surroundings<S: Fn(usize, usize, &Vec<Vec<i32>>) -> bool>(
    is_solid: S,
    grid: &Vec<Vec<i32>>,
    p: Pos,
)
    requires
        in_bounds(grid@, p),
        is_free(is_solid, grid, ((p.0 - 1) as i32, p.1)),
        is_free(is_solid, grid, (p.0, (p.1 - 1) as i32)),
        is_free(is_solid, grid, ((p.0 + 1) as i32, p.1)),
        is_free(is_solid, grid, (p.0, (p.1 + 1) as i32)),
    ensures
        free_neighbors(is_solid, grid, p) == seq![
            ((p.0 - 1) as i32, p.1),
            (p.0, (p.1 - 1) as i32),
            ((p.0 + 1) as i32, p.1),
            (p.0, (p.1 + 1) as i32),
        ],
{
    assert(free_neighbors(is_solid, grid, p) =~= seq![
        ((p.0 - 1) as i32, p.1),
        (p.0, (p.1 - 1) as i32),
        ((p.0 + 1) as i32, p.1),
        (p.0, (p.1 + 1) as i32),
    ]);
}

/// The free cells next to `(row, col)`: up, left, down, right, each kept when it lies in the
/// grid and `is_solid` does not call it solid. Cells outside the grid are never passed to
/// `is_solid`.
pub fn get_neighbors<S: Fn(usize, usize, &Vec<Vec<i32>>) -> bool>(
    row: i32,
    col: i32,
    grid: &Vec<Vec<i32>>,
    is_solid: S,
) -> (r: Vec<(i32, i32)>)
    requires
        is_rect(grid@),
        in_bounds(grid@, (row, col)),
        solidity_ok(is_solid, grid),
    ensures
        r@ == free_neighbors(is_solid, grid, (row, col)),
{
    let ghost p = (row, col);
    let height = grid.len();
    let width = grid[0].len();
    let mut neighbors: Vec<(i32, i32)> = Vec::new();
    if row > 0 && !is_solid((row - 1) as usize, col as usize, grid) {
        neighbors.push((row - 1, col));
    }
    assert(neighbors@ == keep_if_free(Seq::empty(), is_solid, grid, ((p.0 - 1) as i32, p.1)));
    let ghost s1 = neighbors@;
    if col > 0 && !is_solid(row as usize, (col - 1) as usize, grid) {
        neighbors.push((row, col - 1));
    }
    assert(neighbors@ == keep_if_free(s1, is_solid, grid, (p.0, (p.1 - 1) as i32)));
    let ghost s2 = neighbors@;
    if ((row + 1) as usize) < height && !is_solid((row + 1) as usize, col as usize, grid) {
        neighbors.push((row + 1, col));
    }
    assert(neighbors@ == keep_if_free(s2, is_solid, grid, ((p.0 + 1) as i32, p.1)));
    let ghost s3 = neighbors@;
    if ((col + 1) as usize) < width && !is_solid(row as usize, (col + 1) as usize, grid) {
        neighbors.push((row, col + 1));
    }
    assert(neighbors@ == keep_if_free(s3, is_solid, grid, (p.0, (p.1 + 1) as i32)));
    neighbors
}

/// When no free cell lies next to `end`, no path reaches `end` from any other cell.
pub proof fn lemma_enclosed_end_unreachable<S: Fn(usize, usize, &Vec<Vec<i32>>) -> bool>(
    is_solid: S,
    grid: &Vec<Vec<i32>>,
    start: Pos,
    end: Pos,
)
    requires
        start != end,
        forall|q: Pos| #[trigger] adjacent(end, q) ==> !is_free(is_solid, grid, q),
    ensures
        forall|path: Seq<Pos>| !is_path(is_solid, grid, start, end, path),
{
    assert forall|path: Seq<Pos>| !is_path(is_solid, grid, start, end, path) by {
        if is_path(is_solid, grid, start, end, path) {
            let n = path.len();
            assert(n >= 2);
            let q = path[n - 2];
            assert(adjacent(q, path[n - 2 + 1]));
            assert(adjacent(end, q));
            assert(is_free(is_solid, grid, q));
        }
    }
}

/// The heuristic's estimates for two cells of the grid differ by at most the Manhattan
/// distance between them.
pub open spec fn consistent<H: Fn((i32, i32), (i32, i32)) -> i32>(
    heuristic: H,
    grid: &Vec<Vec<i32>>,
    end: Pos,
) -> bool {
    forall|p: Pos, q: Pos, a: i32, b: i32|
        in_bounds(grid@, p) && in_bounds(grid@, q) && #[trigger] heuristic.ensures((p, end), a)
            && #[trigger] heuristic.ensures((q, end), b) ==> a <= b + manhattan(p, q)
}

/// Every path has at least as many steps as the Manhattan distance between its ends.
pub proof fn lemma_path_at_least_manhattan<S: Fn(usize, usize, &Vec<Vec<i32>>) -> bool>(
    is_solid: S,
    grid: &Vec<Vec<i32>>,
    start: Pos,
    end: Pos,
    path: Seq<Pos>,
)
    requires
        is_path(is_solid, grid, start, end, path),
    ensures
        path.len() >= manhattan(start, end) + 1,
{
    lemma_prefix_manhattan(is_solid, grid, start, end, path, path.len() - 1);
}

proof fn lemma_prefix_manhattan<S: Fn(usize, usize, &Vec<Vec<i32>>) -> bool>(
    is_solid: S,
    grid: &Vec<Vec<i32>>,
    start: Pos,
    end: Pos,
    path: Seq<Pos>,
    k: int,
)
    requires
        is_path(is_solid, grid, start, end, path),
        0 <= k < path.len(),
    ensures
        manhattan(start, path[k]) <= k,
    decreases k,
{
    if k > 0 {
        lemma_prefix_manhattan(is_solid, grid, start, end, path, k - 1);
        assert(adjacent(path[k - 1], path[k - 1 + 1]));
    }
}

/// A path that first moves along rows from `p` to the row of `end`, then along columns.
pub open spec fn staircase(p: Pos, end: Pos) -> Seq<Pos>
    decreases manhattan(p, end),
{
    if p.0 < end.0 {
        seq![p] + staircase(((p.0 + 1) as i32, p.1), end)
    } else if p.0 > end.0 {
        seq![p] + staircase(((p.0 - 1) as i32, p.1), end)
    } else if p.1 < end.1 {
        seq![p] + staircase((p.0, (p.1 + 1) as i32), end)
    } else if p.1 > end.1 {
        seq![p] + staircase((p.0, (p.1 - 1) as i32), end)
    } else {
        seq![p]
    }
}

/// The staircase from a cell of an obstacle-free grid is a path of Manhattan distance steps.
pub proof fn lemma_staircase<S: Fn(usize, usize, &Vec<Vec<i32>>) -> bool>(
    is_solid: S,
    grid: &Vec<Vec<i32>>,
    p: Pos,
    end: Pos,
)
    requires
        forall|q: Pos| in_bounds(grid@, q) ==> #[trigger] is_free(is_solid, grid, q),
        in_bounds(grid@, p),
        in_bounds(grid@, end),
    ensures
        is_path(is_solid, grid, p, end, staircase(p, end)),
        staircase(p, end).len() == manhattan(p, end) + 1,
    decreases manhattan(p, end),
{
    let s = staircase(p, end);
    if p != end {
        let next = if p.0 < end.0 {
            ((p.0 + 1) as i32, p.1)
        } else if p.0 > end.0 {
            ((p.0 - 1) as i32, p.1)
        } else if p.1 < end.1 {
            (p.0, (p.1 + 1) as i32)
        } else {
            (p.0, (p.1 - 1) as i32)
        };
        lemma_staircase(is_solid, grid, next, end);
        let rest = staircase(next, end);
        assert(s == seq![p] + rest);
        assert(is_free(is_solid, grid, p));
        assert forall|i: int| 0 <= i < s.len() implies is_free(is_solid, grid, #[trigger] s[i]) by {
            if i > 0 {
                assert(s[i] == rest[i - 1]);
            }
        }
        assert forall|i: int| 0 <= i < s.len() - 1 implies adjacent(#[trigger] s[i], s[i + 1]) by {
            if i > 0 {
                assert(s[i] == rest[i - 1]);
                assert(s[i + 1] == rest[i - 1 + 1]);
            } else {
                assert(s[1] == rest[0]);
            }
        }
        assert(s.last() == rest.last());
    } else {
        assert(s == seq![p]);
    }
}

/// On a grid without solid cells, a path exists between any two cells, and a shortest one has
/// exactly one more cell than the Manhattan distance between them.
pub proof fn lemma_open_grid_shortest<S: Fn(usize, usize, &Vec<Vec<i32>>) -> bool>(
    is_solid: S,
    grid: &Vec<Vec<i32>>,
    start: Pos,
    end: Pos,
    path: Seq<Pos>,
)
    requires
        forall|q: Pos| in_bounds(grid@, q) ==> #[trigger] is_free(is_solid, grid, q),
        in_bounds(grid@, start),
        in_bounds(grid@, end),
        is_path(is_solid, grid, start, end, path),
        forall|other: Seq<Pos>|
            is_path(is_solid, grid, start, end, other) ==> path.len() <= other.len(),
    ensures
        path.len() == manhattan(start, end) + 1,
        exists|other: Seq<Pos>| is_path(is_solid, grid, start, end, other),
{
    lemma_staircase(is_solid, grid, start, end);
    lemma_path_at_least_manhattan(is_solid, grid, start, end, path);
}

/// On a grid without solid cells, a search between two of its cells that meets the contract of
/// `astar` with the Manhattan heuristic returns a path with exactly one more cell than the
/// Manhattan distance between them.
pub proof fn lemma_open_grid_search<S: Fn(usize, usize, &Vec<Vec<i32>>) -> bool>(
    is_solid: S,
    grid: &Vec<Vec<i32>>,
    start: Pos,
    end: Pos,
    r: Option<Vec<(i32, i32)>>,
)
    requires
        forall|q: Pos| in_bounds(grid@, q) ==> #[trigger] is_free(is_solid, grid, q),
        in_bounds(grid@, start),
        in_bounds(grid@, end),
        r is Some <==> exists|path: Seq<Pos>| is_path(is_solid, grid, start, end, path),
        r matches Some(path) ==> is_path(is_solid, grid, start, end, path@),
        r matches Some(path) ==> consistent(manhattan_distance, grid, end) ==> forall|
            other: Seq<Pos>,
        | is_path(is_solid, grid, start, end, other) ==> path@.len() <= other.len(),
    ensures
        r matches Some(path) && path@.len() == manhattan(start, end) + 1,
{
    lemma_staircase(is_solid, grid, start, end);
    lemma_manhattan_consistent(grid, end);
    let path = r.unwrap();
    lemma_open_grid_shortest(is_solid, grid, start, end, path@);
}

/// The Manhattan distance to `end` is a consistent heuristic.
pub proof fn lemma_manhattan_consistent(grid: &Vec<Vec<i32>>, end: Pos)
    ensures
        consistent(manhattan_distance, grid, end),
{
}

/// The diagonal distance to `end` is a consistent heuristic.
pub proof fn lemma_diagonal_consistent(grid: &Vec<Vec<i32>>, end: Pos)
    ensures
        consistent(diagonal_distance, grid, end),
{
}

/// A* search for a path from `start` to `end` through the cells that `is_cell_solid` does not
/// call solid, moving one orthogonal step at a time at unit cost.
///
/// The open cell with the lowest cost so far plus `heuristic` estimate is settled next; among
/// equal estimates, the one opened first. A settled cell is never reopened. When `start` or
/// `end` lies outside the grid or is solid, no path is returned.
pub fn astar<H, S>(
    start: (i32, i32),
    end: (i32, i32),
    grid: &Vec<Vec<i32>>,
    heuristic: H,
    is_cell_solid: S,
) -> (r: Option<Vec<(i32, i32)>>) where
    H: Fn((i32, i32), (i32, i32)) -> i32,
    S: Fn(usize, usize, &Vec<Vec<i32>>) -> bool + Copy,

    requires
        is_rect(grid@),
        solidity_ok(is_cell_solid, grid),
        forall|p: Pos| in_bounds(grid@, p) ==> #[trigger] heuristic.requires((p, end)),
    ensures
        r is Some <==> exists|path: Seq<Pos>| is_path(is_cell_solid, grid, start, end, path),
        r matches Some(path) ==> is_path(is_cell_solid, grid, start, end, path@),
        r matches Some(path) ==> consistent(heuristic, grid, end) ==> forall|other: Seq<Pos>|
            is_path(is_cell_solid, grid, start, end, other) ==> path@.len() <= other.len(),
{
    let height = grid.len();
    if height == 0 || start.0 < 0 || start.1 < 0 || end.0 < 0 || end.1 < 0 || start.0 as usize
        >= height || end.0 as usize >= height {
        proof {
            lemma_no_path_from_blocked(is_cell_solid, grid, start, end);
        }
        return None;
    }
    let width = grid[0].len();
    if start.1 as usize >= width || end.1 as usize >= width {
        proof {
            lemma_no_path_from_blocked(is_cell_solid, grid, start, end);
        }
        return None;
    }
    if is_cell_solid(start.0 as usize, start.1 as usize, grid) || is_cell_solid(
        end.0 as usize,
        end.1 as usize,
        grid,
    ) {
        proof {
            lemma_no_path_from_blocked(is_cell_solid, grid, start, end);
        }
        return None;
    }
    let mut closed: Vec<Vec<bool>> = filled_rows(width, height, false);
    let mut open: Vec<Vec<bool>> = filled_rows(width, height, false);
    let mut g: Vec<Vec<i64>> = filled_rows(width, height, 0i64);
    let mut hv: Vec<Vec<i32>> = filled_rows(width, height, 0i32);
    let mut came_from: BTreeMap<(i32, i32), (i32, i32)> = BTreeMap::new();
    set_cell(&mut open, start, true);
    let h = heuristic(start, end);
    set_cell(&mut hv, start, h);
    let mut open_list: Vec<(i32, i32)> = vec![start];
    let ghost budget: int = unsettled(closed@) as int;
    proof {
        lemma_unsettled_bound(closed@, width as int);
        assert(height * width <= 0x7fff_ffff * 0x7fff_ffff) by (nonlinear_arith)
            requires
                height <= 0x7fff_ffff,
                width <= 0x7fff_ffff,
        ;
        assert(open_list@ =~= seq![start]);
        assert forall|p: Pos| in_bounds(grid@, p) && #[trigger] cell(open@, p) implies heuristic.ensures(
            (p, end),
            cell(hv@, p),
        ) by {
            assert(p == start);
        }
        assert forall|p: Pos, path: Seq<Pos>|
            #![trigger cell(closed@, p), is_path(is_cell_solid, grid, start, p, path)]
            in_bounds(grid@, p) && cell(closed@, p) && is_path(is_cell_solid, grid, start, p, path)
            implies cell(g@, p) + 1 <= path.len() by {
            assert(!closed@[p.0 as int]@[p.1 as int]);
        }
        lemma_initial_state(is_cell_solid, grid, start, closed@, open@, g@, hv@, came_from@, open_list@, budget);
    }
    while open_list.len() > 0
        invariant
            is_rect(grid@),
            solidity_ok(is_cell_solid, grid),
            forall|p: Pos| in_bounds(grid@, p) ==> #[trigger] heuristic.requires((p, end)),
            height == grid@.len(),
            height > 0,
            state_ok(is_cell_solid, grid, start, closed@, open@, g@, hv@, came_from@, open_list@, budget),
            frontier_ok(is_cell_solid, grid, closed@, open@, g@, None),
            in_bounds(grid@, end),
            !cell(closed@, end),
            estimates_ok(heuristic, grid, end, open@, hv@),
            consistent(heuristic, grid, end) ==> settled_optimal(is_cell_solid, grid, start, closed@, g@),
        decreases unsettled(closed@),
    {
        let ghost closed0 = closed@;
        let ghost open0 = open@;
        let ghost list0 = open_list@;
        let current = settle_lowest(
            is_cell_solid,
            grid,
            Ghost(start),
            Ghost(budget),
            &mut closed,
            &mut open,
            &g,
            &hv,
            &came_from,
            &mut open_list,
        );
        proof {
            if consistent(heuristic, grid, end) {
                lemma_settle_keeps_optimal(
                    heuristic,
                    is_cell_solid,
                    grid,
                    start,
                    end,
                    closed0,
                    open0,
                    list0,
                    came_from@,
                    budget,
                    closed@,
                    g@,
                    hv@,
                    current,
                );
            }
            assert forall|p: Pos| in_bounds(grid@, p) && #[trigger] cell(open@, p) implies heuristic.ensures(
                (p, end),
                cell(hv@, p),
            ) by {
                assert(cell(open0, p));
            }
        }
        if current.0 == end.0 && current.1 == end.1 {
            proof {
                reveal(state_ok);
                reveal(costs_ok);
                lemma_chain_ends(is_cell_solid, grid, start, closed@, open@, g@, came_from@, current);
            }
            let path = reconstruct_path(&came_from, current);
            proof {
                reveal(state_ok);
                lemma_found_path(is_cell_solid, grid, start, end, closed@, open@, g@, came_from@, path@);
                reveal(costs_ok);
                lemma_chain_cost(is_cell_solid, grid, start, closed@, open@, g@, came_from@, path@, end, path@.len() - 1);
                if consistent(heuristic, grid, end) {
                    assert forall|other: Seq<Pos>| is_path(is_cell_solid, grid, start, end, other) implies path@.len() <= other.len() by {
                        assert(cell(closed@, end));
                    }
                }
            }
            return Some(path);
        }
        let neighbors = get_neighbors(current.0, current.1, grid, is_cell_solid);
        proof {
            lemma_free_neighbors(is_cell_solid, grid, current);
        }
        let mut k: usize = 0;
        while k < neighbors.len()
            invariant
                is_rect(grid@),
                solidity_ok(is_cell_solid, grid),
                forall|p: Pos| in_bounds(grid@, p) ==> #[trigger] heuristic.requires((p, end)),
                height == grid@.len(),
                height > 0,
                state_ok(is_cell_solid, grid, start, closed@, open@, g@, hv@, came_from@, open_list@, budget),
                frontier_ok(is_cell_solid, grid, closed@, open@, g@, Some(current)),
                in_bounds(grid@, end),
                !cell(closed@, end),
                in_bounds(grid@, current),
                cell(closed@, current),
                0 <= cell(g@, current),
                cell(g@, current) + unsettled(closed@) < budget,
                neighbors@ == free_neighbors(is_cell_solid, grid, current),
                estimates_ok(heuristic, grid, end, open@, hv@),
                consistent(heuristic, grid, end) ==> settled_optimal(is_cell_solid, grid, start, closed@, g@),
                forall|i: int|
                    0 <= i < neighbors@.len() ==> is_free(
                        is_cell_solid,
                        grid,
                        #[trigger] neighbors@[i],
                    ) && adjacent(current, neighbors@[i]),
                forall|i: int|
                    0 <= i < k ==> cell(closed@, #[trigger] neighbors@[i]) || (cell(
                        open@,
                        neighbors@[i],
                    ) && cell(g@, neighbors@[i]) <= cell(g@, current) + 1),
            decreases neighbors@.len() - k,
        {
            let ghost open0 = open@;
            let ghost g0 = g@;
            visit_neighbor(
                neighbors[k],
                current,
                end,
                grid,
                &heuristic,
                is_cell_solid,
                Ghost(start),
                Ghost(budget),
                &closed,
                &mut open,
                &mut g,
                &mut hv,
                &mut came_from,
                &mut open_list,
            );
            proof {
                assert(cell(g@, current) == cell(g0, current));
                if consistent(heuristic, grid, end) {
                    assert forall|p: Pos, path: Seq<Pos>|
                        #![trigger cell(closed@, p), is_path(is_cell_solid, grid, start, p, path)]
                        in_bounds(grid@, p) && cell(closed@, p) && is_path(is_cell_solid, grid, start, p, path)
                        implies cell(g@, p) + 1 <= path.len() by {
                        assert(cell(g@, p) == cell(g0, p));
                    }
                }
                assert forall|i: int| 0 <= i <= k implies cell(closed@, #[trigger] neighbors@[i])
                    || (cell(open@, neighbors@[i]) && cell(g@, neighbors@[i]) <= cell(g@, current)
                    + 1) by {
                    if i < k {
                        assert(is_free(is_cell_solid, grid, neighbors@[i]));
                        if !cell(closed@, neighbors@[i]) {
                            assert(cell(open0, neighbors@[i]));
                            assert(cell(g@, neighbors@[i]) <= cell(g0, neighbors@[i]));
                        }
                    }
                }
                assert forall|p: Pos, q: Pos|
                    #![trigger cell(closed@, p), is_free(is_cell_solid, grid, q)]
                    in_bounds(grid@, p) && cell(closed@, p) && Some(current) != Some(p) && is_free(
                        is_cell_solid,
                        grid,
                        q,
                    ) && adjacent(p, q) implies cell(closed@, q) || (cell(open@, q) && cell(g@, q)
                    <= cell(g@, p) + 1) by {
                    assert(cell(g@, p) == cell(g0, p));
                    if !cell(closed@, q) {
                        assert(cell(open0, q));
                        assert(cell(g@, q) <= cell(g0, q));
                    }
                }
            }
            k = k + 1;
        }
        proof {
            assert forall|p: Pos, q: Pos|
                #![trigger cell(closed@, p), is_free(is_cell_solid, grid, q)]
                in_bounds(grid@, p) && cell(closed@, p) && None::<Pos> != Some(p) && is_free(
                    is_cell_solid,
                    grid,
                    q,
                ) && adjacent(p, q) implies cell(closed@, q) || (cell(open@, q) && cell(g@, q)
                <= cell(g@, p) + 1) by {
                if p == current {
                    assert(free_neighbors(is_cell_solid, grid, current).contains(q));
                    let i = choose|i: int| 0 <= i < neighbors@.len() && neighbors@[i] == q;
                    assert(cell(closed@, neighbors@[i]) || (cell(open@, neighbors@[i]) && cell(
                        g@,
                        neighbors@[i],
                    ) <= cell(g@, current) + 1));
                }
            }
        }
    }
    proof {
        reveal(state_ok);
        reveal(open_list_ok);
        assert forall|p: Pos| in_bounds(grid@, p) implies !#[trigger] cell(open@, p) by {
            if cell(open@, p) {
                assert(open_list@.contains(p));
            }
        }
        assert forall|path: Seq<Pos>| !is_path(is_cell_solid, grid, start, end, path) by {
            if is_path(is_cell_solid, grid, start, end, path) {
                lemma_path_settled(
                    is_cell_solid,
                    grid,
                    start,
                    end,
                    closed@,
                    open@,
                    g@,
                    path,
                    path.len() - 1,
                );
            }
        }
    }
    None
}

} // verus!
