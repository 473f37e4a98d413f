//! Line-of-sight rasterization and shortest-path search over the grid.
//!
//! A segment between two cells is rasterized into a chain of 8-adjacent
//! cells by rounding the ideal line to the nearest cell at each step of
//! the dominant axis. The rasterization is symmetric: walking the segment
//! from either end visits the same cells, so whether a line is blocked
//! does not depend on the direction it is looked along.

use vstd::prelude::*;
use vstd::arithmetic::div_mod::{
    lemma_basic_div, lemma_div_is_ordered, lemma_fundamental_div_mod_converse,
    lemma_hoist_over_denominator,
};
use crate::types::{
    MapPosition, OccupancyGrid, abs_int, adjacent8, lemma_cell_index, lemma_cell_index_distinct,
    lemma_grid_size, manhattan, scan_cell, small_coords,
};

verus! {

pub open spec fn max2(a: int, b: int) -> int {
    if a >= b { a } else { b }
}

/// Number of steps of the rasterized segment: the Chebyshev distance.
pub open spec fn line_len(a: MapPosition, b: MapPosition) -> int {
    max2(abs_int(b.x - a.x), abs_int(b.y - a.y))
}

/// Offset along one axis after `i` of `n` steps, when the axis moves `d`
/// cells in total: the ideal offset `i*d/n` rounded, halves up.
pub open spec fn line_step(d: int, i: int, n: int) -> int {
    (2 * i * d + n) / (2 * n)
}

/// Cell `i` of the rasterized segment from `a` to `b`.
pub open spec fn line_cell(a: MapPosition, b: MapPosition, i: int) -> MapPosition {
    let n = line_len(a, b);
    if n == 0 {
        a
    } else {
        MapPosition {
            x: (a.x + line_step(b.x - a.x, i, n)) as isize,
            y: (a.y + line_step(b.y - a.y, i, n)) as isize,
        }
    }
}

/// Whether any cell of the rasterized segment between `a` and `b` is
/// occupied.
pub open spec fn line_blocked(grid: OccupancyGrid, a: MapPosition, b: MapPosition) -> bool {
    exists|i: int| 0 <= i <= line_len(a, b) && grid.occupied_spec(line_cell(a, b, i))
}

/// `i` indexes the first occupied cell of the segment from `a` to `b`.
pub open spec fn first_block_at(
    grid: OccupancyGrid,
    a: MapPosition,
    b: MapPosition,
    i: int,
) -> bool {
    0 <= i <= line_len(a, b) && grid.occupied_spec(line_cell(a, b, i))
        && (forall|j: int| 0 <= j < i ==> !grid.occupied_spec(line_cell(a, b, j)))
}

/// `(x + j*(2n) + n) / (2n) == j + (x + n) / (2n)`: whole steps of the
/// divisor hoist out of the rounding.
proof fn lemma_step_shift(x: int, j: int, n: int)
    requires
        n >= 1,
    ensures
        (x + j * (2 * n) + n) / (2 * n) == j + (x + n) / (2 * n),
{
    lemma_hoist_over_denominator(x + n, j, (2 * n) as nat);
}

/// The first cell of a segment carries no offset.
proof fn lemma_line_step_zero(d: int, n: int)
    requires
        n >= 1,
    ensures
        line_step(d, 0, n) == 0,
{
    assert(2 * 0 * d + n == n) by (nonlinear_arith);
    lemma_basic_div(n, 2 * n);
}

/// The last cell of a segment carries the whole offset.
proof fn lemma_line_step_full(d: int, n: int)
    requires
        n >= 1,
    ensures
        line_step(d, n, n) == d,
{
    assert(2 * n * d == 0 + d * (2 * n)) by (nonlinear_arith);
    lemma_step_shift(0, d, n);
    lemma_basic_div(n, 2 * n);
}

/// Walking the segment backwards yields the mirrored offsets.
proof fn lemma_line_step_sym(d: int, i: int, n: int)
    requires
        n >= 1,
    ensures
        line_step(d, i, n) == d + line_step(-d, n - i, n),
{
    assert(2 * (n - i) * (-d) == (2 * i * d) + (-d) * (2 * n)) by (nonlinear_arith);
    lemma_step_shift(2 * i * d, -d, n);
}

/// The offset stays between 0 and `d` (or `d` and 0 when `d` is negative).
proof fn lemma_line_step_bounds(d: int, i: int, n: int)
    requires
        n >= 1,
        0 <= i <= n,
        -n <= d <= n,
    ensures
        d >= 0 ==> 0 <= line_step(d, i, n) <= d,
        d <= 0 ==> d <= line_step(d, i, n) <= 0,
{
    if d >= 0 {
        assert(0 <= 2 * i * d && 2 * i * d <= 2 * n * d) by (nonlinear_arith)
            requires 0 <= i <= n && 0 <= d;
        lemma_div_is_ordered(n, 2 * i * d + n, 2 * n);
        lemma_basic_div(n, 2 * n);
        lemma_div_is_ordered(2 * i * d + n, 2 * n * d + n, 2 * n);
        lemma_line_step_full(d, n);
    } else {
        assert(2 * n * d <= 2 * i * d && 2 * i * d <= 0) by (nonlinear_arith)
            requires 0 <= i <= n && d <= 0;
        lemma_div_is_ordered(2 * n * d + n, 2 * i * d + n, 2 * n);
        lemma_basic_div(n, 2 * n);
        lemma_div_is_ordered(2 * i * d + n, n, 2 * n);
        lemma_line_step_full(d, n);
    }
}

/// Consecutive offsets differ by at most one, toward the target.
proof fn lemma_line_step_adjacent(d: int, i: int, n: int)
    requires
        n >= 1,
        0 <= i < n,
        -n <= d <= n,
    ensures
        d >= 0 ==> line_step(d, i, n) <= line_step(d, i + 1, n) <= line_step(d, i, n) + 1,
        d <= 0 ==> line_step(d, i, n) - 1 <= line_step(d, i + 1, n) <= line_step(d, i, n),
{
    let m = 2 * n;
    let a = 2 * i * d + n;
    let b = 2 * (i + 1) * d + n;
    assert(2 * (i + 1) * d + n == (2 * i * d + n) + 2 * d) by (nonlinear_arith);
    if d >= 0 {
        lemma_div_is_ordered(a, b, m);
        assert(b <= a + m);
        lemma_step_shift(a - n, 1, n);
        lemma_div_is_ordered(b, a + m, m);
    } else {
        lemma_div_is_ordered(b, a, m);
        assert(a <= b + m);
        lemma_step_shift(b - n, 1, n);
        lemma_div_is_ordered(a, b + m, m);
    }
}

/// On the dominant axis every step moves exactly one cell.
proof fn lemma_line_step_dominant(d: int, i: int, n: int)
    requires
        n >= 1,
        abs_int(d) == n,
    ensures
        d == n ==> line_step(d, i, n) == i,
        d == -n ==> line_step(d, i, n) == -i,
{
    if d == n {
        assert(2 * i * d == 0 + i * (2 * n)) by (nonlinear_arith) requires d == n;
        lemma_step_shift(0, i, n);
        lemma_basic_div(n, 2 * n);
    } else {
        assert(2 * i * d == 0 + (-i) * (2 * n)) by (nonlinear_arith) requires d == -n;
        lemma_step_shift(0, -i, n);
        lemma_basic_div(n, 2 * n);
    }
}

/// The rasterized segment starts at `a` and ends at `b`.
pub proof fn lemma_line_endpoints(a: MapPosition, b: MapPosition)
    requires
        small_coords(a),
        small_coords(b),
    ensures
        line_cell(a, b, 0) == a,
        line_cell(a, b, line_len(a, b)) == b,
{
    let n = line_len(a, b);
    if n != 0 {
        lemma_line_step_zero(b.x - a.x, n);
        lemma_line_step_zero(b.y - a.y, n);
        lemma_line_step_full(b.x - a.x, n);
        lemma_line_step_full(b.y - a.y, n);
    }
}

/// Consecutive cells of a rasterized segment are 8-adjacent.
pub proof fn lemma_line_adjacent(a: MapPosition, b: MapPosition, i: int)
    requires
        small_coords(a),
        small_coords(b),
        0 <= i < line_len(a, b),
    ensures
        adjacent8(line_cell(a, b, i), line_cell(a, b, i + 1)),
{
    let n = line_len(a, b);
    let dx = b.x - a.x;
    let dy = b.y - a.y;
    lemma_line_step_bounds(dx, i, n);
    lemma_line_step_bounds(dx, i + 1, n);
    lemma_line_step_bounds(dy, i, n);
    lemma_line_step_bounds(dy, i + 1, n);
    lemma_line_step_adjacent(dx, i, n);
    lemma_line_step_adjacent(dy, i, n);
    if abs_int(dx) == n {
        lemma_line_step_dominant(dx, i, n);
        lemma_line_step_dominant(dx, i + 1, n);
    } else {
        lemma_line_step_dominant(dy, i, n);
        lemma_line_step_dominant(dy, i + 1, n);
    }
}

/// The rasterized segment from `b` to `a` is the reverse of the one from
/// `a` to `b`, cell for cell.
pub proof fn lemma_line_symmetric(a: MapPosition, b: MapPosition, i: int)
    requires
        small_coords(a),
        small_coords(b),
        0 <= i <= line_len(a, b),
    ensures
        line_len(b, a) == line_len(a, b),
        line_cell(a, b, i) == line_cell(b, a, line_len(a, b) - i),
{
    let n = line_len(a, b);
    if n != 0 {
        let dx = b.x - a.x;
        let dy = b.y - a.y;
        lemma_line_step_sym(dx, i, n);
        lemma_line_step_sym(dy, i, n);
        lemma_line_step_bounds(dx, i, n);
        lemma_line_step_bounds(dy, i, n);
        lemma_line_step_bounds(-dx, n - i, n);
        lemma_line_step_bounds(-dy, n - i, n);
    }
}

/// One axis offset of the rasterized segment, computed with non-negative
/// intermediate values only.
fn line_step_exec(d: i64, i: i64, n: i64) -> (r: i64)
    requires
        1 <= n <= 0x2000_0000,
        -n <= d <= n,
        0 <= i <= n,
    ensures
        r == line_step(d as int, i as int, n as int),
{
    proof {
        assert(2 * i * (d + n) == 2 * i * d + i * (2 * n)) by (nonlinear_arith);
        assert(0 <= 2 * i * (d + n) <= 0x1000_0000_0000_0000) by (nonlinear_arith)
            requires 0 <= i <= n <= 0x2000_0000 && 0 <= d + n <= 2 * n;
        lemma_step_shift(2 * (i as int) * (d as int), i as int, n as int);
        lemma_line_step_bounds(d as int, i as int, n as int);
    }
    let num = (2 * i * (d + n) + n) as u64;
    let q = (num / ((2 * n) as u64)) as i64;
    q - i
}

impl MapPosition {
    /// Detect the position of an obstacle between the two positions: the
    /// first occupied cell on the rasterized segment, walking from `self`,
    /// or nothing when the whole segment is clear.
    pub fn obstacle_between(self, other: MapPosition, grid: &OccupancyGrid) -> (r: Option<
        MapPosition,
    >)
        requires
            grid.wf(),
            small_coords(self),
            small_coords(other),
        ensures
            r is Some <==> line_blocked(*grid, self, other),
            r matches Some(c) ==> small_coords(c),
            match r {
                Some(c) => exists|i: int| #[trigger] first_block_at(*grid, self, other, i)
                    && c == line_cell(self, other, i),
                None => forall|i: int| 0 <= i <= line_len(self, other)
                    ==> !grid.occupied_spec(line_cell(self, other, i)),
            },
    {
        let dx: i64 = other.x as i64 - self.x as i64;
        let dy: i64 = other.y as i64 - self.y as i64;
        let adx: i64 = if dx >= 0 { dx } else { -dx };
        let ady: i64 = if dy >= 0 { dy } else { -dy };
        let n: i64 = if adx >= ady { adx } else { ady };
        proof {
            assert(n == line_len(self, other));
        }
        if n == 0 {
            proof {
                assert(line_cell(self, other, 0) == self);
            }
            if self.is_occupied(grid) {
                proof {
                    assert(first_block_at(*grid, self, other, 0));
                }
                return Some(self);
            } else {
                return None;
            }
        }
        let mut i: i64 = 0;
        while i <= n
            invariant
                grid.wf(),
                small_coords(self),
                small_coords(other),
                dx == other.x - self.x,
                dy == other.y - self.y,
                1 <= n <= 0x2000_0000,
                n == line_len(self, other),
                0 <= i <= n + 1,
                forall|j: int| 0 <= j < i ==> !grid.occupied_spec(line_cell(self, other, j)),
            decreases n - i + 1,
        {
            let sx = line_step_exec(dx, i, n);
            let sy = line_step_exec(dy, i, n);
            proof {
                lemma_line_step_bounds(dx as int, i as int, n as int);
                lemma_line_step_bounds(dy as int, i as int, n as int);
            }
            let cell = MapPosition { x: (self.x as i64 + sx) as isize, y: (self.y as i64 + sy) as isize };
            proof {
                assert(cell == line_cell(self, other, i as int));
            }
            if cell.is_occupied(grid) {
                proof {
                    assert(grid.occupied_spec(line_cell(self, other, i as int)));
                    assert(first_block_at(*grid, self, other, i as int));
                }
                return Some(cell);
            }
            i += 1;
        }
        None
    }
}

// ---------------------------------------------------------------------------
// Shortest-path search.
// ---------------------------------------------------------------------------

/// A valid path: starts at `start`, ends at `goal`, consecutive cells are
/// 8-adjacent, and every cell after the start is unoccupied. The start
/// itself may be occupied: a unit can stand on blocked terrain and still
/// move off it.
pub open spec fn valid_path(
    grid: OccupancyGrid,
    p: Seq<MapPosition>,
    start: MapPosition,
    goal: MapPosition,
) -> bool {
    &&& p.len() >= 1
    &&& p[0] == start
    &&& p.last() == goal
    &&& forall|i: int| 0 <= i < p.len() - 1 ==> adjacent8(p[i], #[trigger] p[i + 1])
    &&& forall|i: int| 1 <= i < p.len() ==> !grid.occupied_spec(#[trigger] p[i])
}

/// Whether some valid path leads from `start` to `goal`.
pub open spec fn reachable(grid: OccupancyGrid, start: MapPosition, goal: MapPosition) -> bool {
    exists|p: Seq<MapPosition>| valid_path(grid, p, start, goal)
}

/// `c` lies within the grid's bounds.
pub open spec fn in_grid(grid: OccupancyGrid, c: MapPosition) -> bool {
    0 <= c.x < grid.width && 0 <= c.y < grid.height
}

/// Row-major index of an in-bounds cell.
pub open spec fn cell_idx(grid: OccupancyGrid, c: MapPosition) -> int {
    c.y * grid.width + c.x
}

/// `c` is in bounds and marked in the bitmap `seen`.
pub open spec fn marked(grid: OccupancyGrid, seen: Seq<bool>, c: MapPosition) -> bool {
    in_grid(grid, c) && seen[cell_idx(grid, c)]
}

/// Number of set entries of a bitmap.
pub open spec fn count_true(s: Seq<bool>) -> int
    decreases s.len()
{
    if s.len() == 0 {
        0
    } else {
        count_true(s.drop_last()) + if s.last() { 1int } else { 0int }
    }
}

proof fn lemma_count_true_bound(s: Seq<bool>)
    ensures
        0 <= count_true(s) <= s.len(),
    decreases s.len(),
{
    if s.len() > 0 {
        lemma_count_true_bound(s.drop_last());
    }
}

proof fn lemma_count_true_update(s: Seq<bool>, i: int)
    requires
        0 <= i < s.len(),
        !s[i],
    ensures
        count_true(s.update(i, true)) == count_true(s) + 1,
    decreases s.len(),
{
    let t = s.update(i, true);
    if i == s.len() - 1 {
        assert(t.drop_last() =~= s.drop_last());
    } else {
        assert(t.drop_last() =~= s.drop_last().update(i, true));
        lemma_count_true_update(s.drop_last(), i);
    }
}

/// Every 8-neighbor of `p` appears in the 3x3 scan at an off-center index.
proof fn lemma_scan_covers(p: MapPosition, v: MapPosition)
    requires
        small_coords(p),
        adjacent8(p, v),
    ensures
        exists|k: int| 0 <= k < 9 && k != 4 && #[trigger] scan_cell(p, k) == v,
{
    let dxx = v.x - p.x + 1;
    let dyy = v.y - p.y + 1;
    let k = dyy * 3 + dxx;
    lemma_fundamental_div_mod_converse(k, 3, dyy, dxx);
    assert(scan_cell(p, k) == v);
    assert(0 <= k < 9 && k != 4 && scan_cell(p, k) == v);
}

/// `seen` is closed: every unoccupied neighbor of a marked cell is marked.
pub open spec fn closed_under_neighbors(grid: OccupancyGrid, seen: Seq<bool>) -> bool {
    forall|c: MapPosition, k: int|
        marked(grid, seen, c) && 0 <= k < 9 && k != 4
            && !grid.occupied_spec(#[trigger] scan_cell(c, k))
            ==> marked(grid, seen, scan_cell(c, k))
}

/// A closed marked set that contains the start of a valid path contains
/// every cell of the path.
proof fn lemma_closed_contains_path(
    grid: OccupancyGrid,
    seen: Seq<bool>,
    p: Seq<MapPosition>,
    start: MapPosition,
    goal: MapPosition,
    j: int,
)
    requires
        grid.wf(),
        closed_under_neighbors(grid, seen),
        valid_path(grid, p, start, goal),
        marked(grid, seen, start),
        0 <= j < p.len(),
    ensures
        marked(grid, seen, p[j]),
    decreases j,
{
    if j > 0 {
        lemma_closed_contains_path(grid, seen, p, start, goal, j - 1);
        assert(adjacent8(p[(j - 1)], p[(j - 1) + 1]));
        assert(adjacent8(p[j - 1], p[j]));
        assert(!grid.occupied_spec(p[j]));
        assert(small_coords(p[j - 1]));
        lemma_scan_covers(p[j - 1], p[j]);
        let k = choose|k: int| 0 <= k < 9 && k != 4 && #[trigger] scan_cell(p[j - 1], k) == p[j];
        assert(marked(grid, seen, scan_cell(p[j - 1], k)));
    }
}

/// A frontier entry: the path walked so far, and the estimated total cost
/// that orders the frontier (steps so far plus the Manhattan estimate to
/// the goal; the estimate undercounts diagonal runs, which is kept as the
/// searched behavior).
struct SearchNode {
    path: Vec<MapPosition>,
    priority: u128,
}

/// The cell a frontier entry stands on.
spec fn node_cell(n: SearchNode) -> MapPosition {
    n.path@.last()
}

/// `c` is the cell of some frontier entry.
spec fn in_open(open: Seq<SearchNode>, c: MapPosition) -> bool {
    exists|t: int| 0 <= t < open.len() && node_cell(#[trigger] open[t]) == c
}

/// Frontier entries stand on pairwise distinct cells.
spec fn distinct_open(open: Seq<SearchNode>) -> bool {
    forall|t1: int, t2: int| 0 <= t1 < t2 < open.len()
        ==> node_cell(#[trigger] open[t1]) != node_cell(#[trigger] open[t2])
}

/// The frontier invariant: every entry holds a valid path from the start
/// to a marked cell.
spec fn open_inv(
    grid: OccupancyGrid,
    seen: Seq<bool>,
    open: Seq<SearchNode>,
    start: MapPosition,
) -> bool {
    forall|t: int| 0 <= t < open.len() ==> {
        let nd = #[trigger] open[t];
        valid_path(grid, nd.path@, start, node_cell(nd)) && marked(grid, seen, node_cell(nd))
    }
}

/// Closure of the marked set, except at frontier cells, which may still
/// have unexplored neighbors.
spec fn closed_except_open(grid: OccupancyGrid, seen: Seq<bool>, open: Seq<SearchNode>) -> bool {
    forall|c: MapPosition, k: int|
        marked(grid, seen, c) && !in_open(open, c) && 0 <= k < 9 && k != 4
            && !grid.occupied_spec(#[trigger] scan_cell(c, k))
            ==> marked(grid, seen, scan_cell(c, k))
}

/// Removing index `best` from the frontier by swap-remove removes exactly
/// that entry's cell from the frontier's cell set.
proof fn lemma_swap_remove_cells(open: Seq<SearchNode>, new_open: Seq<SearchNode>, best: int)
    requires
        0 <= best < open.len(),
        distinct_open(open),
        new_open == open.update(best, open.last()).drop_last(),
    ensures
        distinct_open(new_open),
        forall|c: MapPosition| in_open(new_open, c) <==> (in_open(open, c)
            && c != node_cell(open[best])),
{
    let popped = node_cell(open[best]);
    assert forall|c: MapPosition| in_open(new_open, c) implies (in_open(open, c) && c != popped) by {
        let t = choose|t: int| 0 <= t < new_open.len() && node_cell(new_open[t]) == c;
        if t == best {
            assert(new_open[t] == open[open.len() - 1]);
            assert(node_cell(open[open.len() - 1]) == c);
        } else {
            assert(new_open[t] == open[t]);
        }
    }
    assert forall|c: MapPosition| (in_open(open, c) && c != popped) implies in_open(new_open, c) by {
        let t = choose|t: int| 0 <= t < open.len() && node_cell(open[t]) == c;
        if t == open.len() - 1 {
            assert(best < open.len() - 1);
            assert(node_cell(new_open[best]) == c);
        } else {
            assert(t != best);
            assert(node_cell(new_open[t]) == c);
        }
    }
}

impl MapPosition {
    /// Shortest-path search from `start` to `goal` over the grid's
    /// unoccupied cells with 8-directional movement, uniform step cost and
    /// a Manhattan-distance estimate. Returns the ordered path including
    /// both endpoints, or nothing exactly when `goal` cannot be reached.
    pub fn find_path(self, goal: MapPosition, grid: &OccupancyGrid) -> (r: Option<
        Vec<MapPosition>,
    >)
        requires
            grid.wf(),
            in_grid(*grid, self),
            small_coords(goal),
        ensures
            r is Some <==> reachable(*grid, self, goal),
            match r {
                Some(p) => valid_path(*grid, p@, self, goal),
                None => !reachable(*grid, self, goal),
            },
    {
        let w = grid.width;
        let h = grid.height;
        proof {
            lemma_grid_size(w as int, h as int);
        }
        let ghost wh = (w * h) as int;

        // The bitmap of cells ever enqueued.
        let mut seen: Vec<bool> = Vec::new();
        let n_cells = w * h;
        let mut i: usize = 0;
        while i < n_cells
            invariant
                0 <= i <= n_cells,
                seen@.len() == i,
                count_true(seen@) == 0,
                forall|j: int| 0 <= j < i ==> !seen@[j],
            decreases n_cells - i,
        {
            proof {
                assert(seen@.push(false).drop_last() =~= seen@);
            }
            seen.push(false);
            i += 1;
        }
        let mut seen_count: usize = 0;

        proof {
            lemma_cell_index(self.x as int, self.y as int, w as int, h as int);
        }
        let start_idx = (self.y as usize) * w + (self.x as usize);
        proof {
            lemma_count_true_update(seen@, start_idx as int);
        }
        seen.set(start_idx, true);
        seen_count = 1;

        let mut first_path: Vec<MapPosition> = Vec::new();
        first_path.push(self);
        let d0 = self.distance(goal);
        let mut open: Vec<SearchNode> = Vec::new();
        open.push(SearchNode { path: first_path, priority: d0 as u128 });

        proof {
            assert(node_cell(open@[0]) == self);
            assert(valid_path(*grid, open@[0].path@, self, self));
            assert(marked(*grid, seen@, self));
            assert forall|c: MapPosition, k: int|
                marked(*grid, seen@, c) && !in_open(open@, c) && 0 <= k < 9 && k != 4
                    && !grid.occupied_spec(#[trigger] scan_cell(c, k))
                implies marked(*grid, seen@, scan_cell(c, k)) by {
                lemma_cell_index(c.x as int, c.y as int, w as int, h as int);
                if c != self {
                    lemma_cell_index_distinct(
                        c.x as int, c.y as int, self.x as int, self.y as int, w as int,
                    );
                }
                assert(c == self);
                assert(node_cell(open@[0]) == c);
            }
            assert(marked(*grid, seen@, goal) ==> in_open(open@, goal)) by {
                if marked(*grid, seen@, goal) {
                    lemma_cell_index(goal.x as int, goal.y as int, w as int, h as int);
                    if goal != self {
                        lemma_cell_index_distinct(
                            goal.x as int, goal.y as int, self.x as int, self.y as int, w as int,
                        );
                    }
                    assert(node_cell(open@[0]) == goal);
                }
            }
        }

        loop
            invariant
                grid.wf(),
                w == grid.width,
                h == grid.height,
                in_grid(*grid, self),
                small_coords(goal),
                seen@.len() == wh,
                wh == w * h,
                wh <= 0x40000000,
                seen_count == count_true(seen@),
                seen_count <= wh,
                marked(*grid, seen@, self),
                open_inv(*grid, seen@, open@, self),
                distinct_open(open@),
                closed_except_open(*grid, seen@, open@),
                marked(*grid, seen@, goal) ==> in_open(open@, goal),
            decreases wh - seen_count, open@.len(),
        {
            proof {
                lemma_count_true_bound(seen@);
            }
            if open.len() == 0 {
                proof {
                    assert forall|c: MapPosition, k: int|
                        marked(*grid, seen@, c) && 0 <= k < 9 && k != 4
                            && !grid.occupied_spec(#[trigger] scan_cell(c, k))
                        implies marked(*grid, seen@, scan_cell(c, k)) by {
                        assert(!in_open(open@, c));
                    }
                    if reachable(*grid, self, goal) {
                        let p = choose|p: Seq<MapPosition>| valid_path(*grid, p, self, goal);
                        lemma_closed_contains_path(
                            *grid, seen@, p, self, goal, p.len() - 1,
                        );
                        assert(marked(*grid, seen@, goal));
                        assert(false);
                    }
                }
                return None;
            }

            // Pick the frontier entry with the least estimated total cost.
            let mut best: usize = 0;
            let mut t: usize = 1;
            while t < open.len()
                invariant
                    open@.len() >= 1,
                    0 <= best < open@.len(),
                    1 <= t <= open@.len(),
                decreases open@.len() - t,
            {
                if open[t].priority < open[best].priority {
                    best = t;
                }
                t += 1;
            }

            let ghost old_open = open@;
            let node = open.swap_remove(best);
            proof {
                lemma_swap_remove_cells(old_open, open@, best as int);
            }
            proof {
                assert(valid_path(*grid, node.path@, self, node_cell(node)));
            }
            let cell = node.path[node.path.len() - 1];

            if cell.x == goal.x && cell.y == goal.y {
                proof {
                    assert(cell == goal);
                    assert(valid_path(*grid, node.path@, self, goal));
                    assert(reachable(*grid, self, goal));
                }
                return Some(node.path);
            }

            // Expand: enqueue every unoccupied neighbor not yet seen.
            let ghost seen_before = seen@;
            let ghost open_at_expand = open@;
            let mut k: usize = 0;
            let mut pushed = false;
            while k < 9
                invariant
                    grid.wf(),
                    w == grid.width,
                    h == grid.height,
                    in_grid(*grid, self),
                    small_coords(goal),
                    seen@.len() == wh,
                    wh == w * h,
                    wh <= 0x40000000,
                    seen_count == count_true(seen@),
                    seen_count <= wh,
                    0 <= k <= 9,
                    marked(*grid, seen@, self),
                    in_grid(*grid, cell),
                    marked(*grid, seen@, cell),
                    !in_open(open@, cell),
                    valid_path(*grid, node.path@, self, cell),
                    cell != goal,
                    open_inv(*grid, seen@, open@, self),
                    distinct_open(open@),
                    marked(*grid, seen@, goal) ==> in_open(open@, goal),
                    // cells marked before this expansion stay marked
                    forall|c: MapPosition| marked(*grid, seen_before, c)
                        ==> marked(*grid, seen@, c),
                    // the frontier only grows during the expansion
                    forall|c: MapPosition| in_open(open_at_expand, c) ==> in_open(open@, c),
                    // closure holds away from the frontier and the popped cell
                    forall|c: MapPosition, kk: int|
                        marked(*grid, seen@, c) && !in_open(open@, c) && c != cell
                            && 0 <= kk < 9 && kk != 4
                            && !grid.occupied_spec(#[trigger] scan_cell(c, kk))
                            ==> marked(*grid, seen@, scan_cell(c, kk)),
                    // the popped cell's scanned neighbors so far are marked
                    forall|kk: int| 0 <= kk < k && kk != 4
                        && !grid.occupied_spec(#[trigger] scan_cell(cell, kk))
                        ==> marked(*grid, seen@, scan_cell(cell, kk)),
                    pushed ==> count_true(seen_before) < seen_count,
                    !pushed ==> seen@ == seen_before,
                    !pushed ==> open@ == open_at_expand,
                decreases 9 - k,
            {
                if k != 4 {
                    let vx = cell.x - 1 + (k % 3) as isize;
                    let vy = cell.y - 1 + (k / 3) as isize;
                    let v = MapPosition { x: vx, y: vy };
                    proof {
                        assert(v == scan_cell(cell, k as int));
                    }
                    if !v.is_occupied(grid) {
                        let sl = seen.len();
                        proof {
                            lemma_cell_index(v.x as int, v.y as int, w as int, h as int);
                        }
                        let v_idx = (v.y as usize) * w + (v.x as usize);
                        if !seen[v_idx] {
                            proof {
                                assert(!marked(*grid, seen@, v));
                                assert forall|tt: int| 0 <= tt < open@.len()
                                    implies node_cell(#[trigger] open@[tt]) != v by {
                                    assert(marked(*grid, seen@, node_cell(open@[tt])));
                                }
                                assert(cell != v);
                                lemma_count_true_update(seen@, v_idx as int);
                                lemma_count_true_bound(seen@.update(v_idx as int, true));
                            }
                            let ghost seen_pre = seen@;
                            seen.set(v_idx, true);
                            seen_count = seen_count + 1;
                            proof {
                                assert forall|c: MapPosition| marked(*grid, seen_pre, c)
                                    implies marked(*grid, seen@, c) by {
                                    lemma_cell_index(c.x as int, c.y as int, w as int, h as int);
                                }
                                assert(marked(*grid, seen@, v));
                            }
                            let mut path2: Vec<MapPosition> = clone_path(&node.path);
                            path2.push(v);
                            proof {
                                assert(path2@.last() == v);
                                assert(valid_path(*grid, path2@, self, v)) by {
                                    assert(forall|i: int| 0 <= i < node.path@.len() - 1
                                        ==> adjacent8(node.path@[i], #[trigger] node.path@[i + 1]));
                                    assert(path2@[path2@.len() - 2] == cell);
                                    assert(adjacent8(cell, v));
                                    assert(forall|i: int| 0 <= i < path2@.len() - 1
                                        ==> adjacent8(path2@[i], #[trigger] path2@[i + 1]));
                                }
                            }
                            let hd = v.distance(goal);
                            let glen = path2.len() as u128 - 1;
                            let prio: u128 = glen + hd as u128;
                            let ghost open_pre = open@;
                            open.push(SearchNode { path: path2, priority: prio });
                            pushed = true;
                            proof {
                                assert(node_cell(open@[open@.len() - 1]) == v);
                                assert forall|c: MapPosition| in_open(open_pre, c)
                                    implies in_open(open@, c) by {
                                    let t = choose|t: int| 0 <= t < open_pre.len()
                                        && node_cell(#[trigger] open_pre[t]) == c;
                                    assert(node_cell(open@[t]) == c);
                                }
                                if marked(*grid, seen@, goal) && !marked(*grid, seen_pre, goal) {
                                    lemma_cell_index(
                                        goal.x as int, goal.y as int, w as int, h as int,
                                    );
                                    if goal != v {
                                        lemma_cell_index_distinct(
                                            goal.x as int, goal.y as int,
                                            v.x as int, v.y as int, w as int,
                                        );
                                    }
                                    assert(goal == v);
                                }
                                assert forall|c: MapPosition, kk: int|
                                    marked(*grid, seen@, c) && !in_open(open@, c) && c != cell
                                        && 0 <= kk < 9 && kk != 4
                                        && !grid.occupied_spec(#[trigger] scan_cell(c, kk))
                                    implies marked(*grid, seen@, scan_cell(c, kk)) by {
                                    if !marked(*grid, seen_pre, c) {
                                        lemma_cell_index(
                                            c.x as int, c.y as int, w as int, h as int,
                                        );
                                        if c != v {
                                            lemma_cell_index_distinct(
                                                c.x as int, c.y as int,
                                                v.x as int, v.y as int, w as int,
                                            );
                                        }
                                        assert(c == v);
                                        assert(in_open(open@, c));
                                    } else {
                                        assert(!in_open(open_pre, c));
                                        assert(marked(*grid, seen_pre, scan_cell(c, kk)));
                                    }
                                }
                            }
                        }
                    }
                }
                k += 1;
            }
            proof {
                // after a full scan the popped cell is closed too
                assert forall|c: MapPosition, kk: int|
                    marked(*grid, seen@, c) && !in_open(open@, c) && 0 <= kk < 9 && kk != 4
                        && !grid.occupied_spec(#[trigger] scan_cell(c, kk))
                    implies marked(*grid, seen@, scan_cell(c, kk)) by {
                    if c != cell {
                    } else {
                    }
                }
                if !pushed {
                    assert(open@.len() < old_open.len());
                }
            }
        }
    }
}

/// An element-for-element copy of a path.
fn clone_path(v: &Vec<MapPosition>) -> (r: Vec<MapPosition>)
    ensures
        r@ == v@,
{
    let mut r: Vec<MapPosition> = Vec::new();
    let mut i: usize = 0;
    while i < v.len()
        invariant
            0 <= i <= v@.len(),
            r@ == v@.subrange(0, i as int),
        decreases v@.len() - i,
    {
        let c = v[i];
        proof {
            assert(r@.push(c) =~= v@.subrange(0, i + 1));
        }
        r.push(c);
        i += 1;
    }
    proof {
        assert(v@.subrange(0, v@.len() as int) =~= v@);
    }
    r
}

/// Law: whether the straight line between two cells is blocked does not
/// depend on the direction it is looked along.
pub proof fn lemma_line_blocked_symmetric(grid: OccupancyGrid, a: MapPosition, b: MapPosition)
    requires
        small_coords(a),
        small_coords(b),
    ensures
        line_blocked(grid, a, b) == line_blocked(grid, b, a),
{
    let n = line_len(a, b);
    if line_blocked(grid, a, b) {
        let i = choose|i: int| 0 <= i <= n && grid.occupied_spec(line_cell(a, b, i));
        lemma_line_symmetric(a, b, i);
        assert(grid.occupied_spec(line_cell(b, a, n - i)));
    }
    if line_blocked(grid, b, a) {
        lemma_line_symmetric(a, b, 0);
        let j = choose|j: int| 0 <= j <= line_len(b, a) && grid.occupied_spec(line_cell(b, a, j));
        lemma_line_symmetric(a, b, n - j);
        assert(grid.occupied_spec(line_cell(a, b, n - j)));
    }
}

} // verus!
