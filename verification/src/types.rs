//! Grid positions and the occupancy grid.
//!
//! World coordinates are discretized into a fixed-size grid of cells; a
//! cell is occupied when it lies outside the grid or is marked blocked by
//! terrain. The world-to-grid transform shifts by half the world's extent,
//! divides by the cell size and clamps into range, so it never yields an
//! out-of-bounds cell.

use vstd::prelude::*;

verus! {

/// Number of grid cells along the horizontal axis of the standard world.
pub const MAP_MAX_X: isize = 512;

/// Number of grid cells along the vertical axis of the standard world.
pub const MAP_MAX_Y: isize = 256;

/// World units per grid cell.
pub const CELL_SIZE: i64 = 64;

/// Half the world's horizontal extent, in world units.
pub const BOUNDARY_X: i64 = 16384;

/// Half the world's vertical extent, in world units.
pub const BOUNDARY_Y: i64 = 8192;

/// A static boolean terrain map: a cell is occupied when it is marked
/// blocked or lies out of range. Loaded once at startup and never mutated
/// afterwards.
pub struct OccupancyGrid {
    /// Number of cells along the horizontal axis.
    pub width: usize,
    /// Number of cells along the vertical axis.
    pub height: usize,
    /// Blocked cells, row-major: index `y * width + x`.
    pub cells: Vec<bool>,
}

/// A position on the occupancy grid, in cells.
#[derive(Default, Debug, Clone, Copy, PartialEq, Eq, Hash, Structural)]
pub struct MapPosition {
    pub x: isize,
    pub y: isize,
}


/// The cell count of a well-formed grid fits comfortably in a machine word.
pub(crate) proof fn lemma_grid_size(w: int, h: int)
    by (nonlinear_arith)
    requires
        1 <= w <= 0x8000,
        1 <= h <= 0x8000,
    ensures
        w * h <= 0x40000000,
{
}

/// Row-major cell indices stay within the grid's cell array.
pub(crate) proof fn lemma_cell_index(x: int, y: int, w: int, h: int)
    by (nonlinear_arith)
    requires
        0 <= x < w,
        0 <= y < h,
    ensures
        0 <= y * w + x < w * h,
{
}

/// Distinct cells have distinct row-major indices.
pub(crate) proof fn lemma_cell_index_distinct(x1: int, y1: int, x2: int, y2: int, w: int)
    by (nonlinear_arith)
    requires
        0 <= x1 < w,
        0 <= x2 < w,
        0 <= y1,
        0 <= y2,
        x1 != x2 || y1 != y2,
    ensures
        y1 * w + x1 != y2 * w + x2,
{
}

impl OccupancyGrid {
    /// A well-formed grid: at least one cell each way, dimensions small
    /// enough for index arithmetic, one entry per cell.
    pub open spec fn wf(&self) -> bool {
        1 <= self.width <= 0x8000
        && 1 <= self.height <= 0x8000
        && self.cells@.len() == self.width * self.height
    }

    /// Whether `p` counts as occupied: out of range, or marked blocked.
    pub open spec fn occupied_spec(&self, p: MapPosition) -> bool {
        p.x < 0
        || p.x as int >= self.width as int
        || p.y < 0
        || p.y as int >= self.height as int
        || self.cells@[p.y as int * self.width as int + p.x as int]
    }

    /// An entirely unblocked grid of the given dimensions.
    pub fn new(width: usize, height: usize) -> (r: OccupancyGrid)
        requires
            1 <= width <= 0x8000,
            1 <= height <= 0x8000,
        ensures
            r.wf(),
            r.width == width,
            r.height == height,
            forall|p: MapPosition| !r.occupied_spec(p) <==> (
                0 <= p.x < width && 0 <= p.y < height
            ),
    {
        proof {
            lemma_grid_size(width as int, height as int);
        }
        let mut cells: Vec<bool> = Vec::new();
        let n = width * height;
        let mut i: usize = 0;
        while i < n
            invariant
                0 <= i <= n,
                cells@.len() == i,
                forall|j: int| 0 <= j < i ==> !cells@[j],
            decreases n - i,
        {
            cells.push(false);
            i += 1;
        }
        let r = OccupancyGrid { width, height, cells };
        proof {
            assert forall|p: MapPosition| (0 <= p.x < width && 0 <= p.y < height)
                implies !r.occupied_spec(p) by {
                lemma_cell_index(p.x as int, p.y as int, width as int, height as int);
            }
        }
        r
    }

    /// Mark one cell as blocked terrain.
    pub fn block(&mut self, x: usize, y: usize)
        requires
            old(self).wf(),
            x < old(self).width,
            y < old(self).height,
        ensures
            final(self).wf(),
            final(self).width == old(self).width,
            final(self).height == old(self).height,
            forall|p: MapPosition| final(self).occupied_spec(p) == (
                old(self).occupied_spec(p) || (p.x == x && p.y == y)
            ),
    {
        let len = self.cells.len();
        proof {
            lemma_cell_index(x as int, y as int, self.width as int, self.height as int);
        }
        let idx = y * self.width + x;
        self.cells.set(idx, true);
        proof {
            assert forall|p: MapPosition| self.occupied_spec(p) == (
                old(self).occupied_spec(p) || (p.x == x && p.y == y)
            ) by {
                if 0 <= p.x < self.width && 0 <= p.y < self.height {
                    let w = self.width as int;
                    let h = self.height as int;
                    lemma_cell_index(p.x as int, p.y as int, w, h);
                    if p.x as int != x as int || p.y as int != y as int {
                        lemma_cell_index_distinct(p.x as int, p.y as int, x as int, y as int, w);
                    }
                }
            }
        }
    }
}

/// Clamp `v` into `[lo, hi]`.
pub open spec fn clamp_spec(v: int, lo: int, hi: int) -> int {
    if v < lo { lo } else if v > hi { hi } else { v }
}

/// Coordinates small enough that neighbor and distance arithmetic cannot
/// overflow the machine integer they are carried in.
pub open spec fn small_coords(p: MapPosition) -> bool {
    -0x1000_0000 <= p.x <= 0x1000_0000 && -0x1000_0000 <= p.y <= 0x1000_0000
}

/// Manhattan grid distance between two cells.
pub open spec fn manhattan(a: MapPosition, b: MapPosition) -> int {
    abs_int(a.x - b.x) + abs_int(a.y - b.y)
}

pub open spec fn abs_int(v: int) -> int {
    if v >= 0 { v } else { -v }
}

/// Two cells are 8-adjacent: distinct, and each axis differs by at most 1.
pub open spec fn adjacent8(a: MapPosition, b: MapPosition) -> bool {
    a != b && abs_int(a.x - b.x) <= 1 && abs_int(a.y - b.y) <= 1
}

/// The 3x3 block of cells around `p`, row-major; index 4 is `p` itself.
pub open spec fn scan_cell(p: MapPosition, k: int) -> MapPosition {
    MapPosition { x: (p.x - 1 + k % 3) as isize, y: (p.y - 1 + k / 3) as isize }
}

/// The unoccupied neighbors of `p` from scan index `k` on, in scan order.
pub open spec fn free_scan(grid: OccupancyGrid, p: MapPosition, k: int) -> Seq<MapPosition>
    decreases 9 - k when k <= 9
{
    if k >= 9 {
        Seq::empty()
    } else {
        let c = scan_cell(p, k);
        let rest = free_scan(grid, p, k + 1);
        if k == 4 || grid.occupied_spec(c) {
            rest
        } else {
            seq![c] + rest
        }
    }
}

/// The unoccupied cells of the 8-neighborhood of `p`, in scan order.
pub open spec fn free_neighbors(grid: OccupancyGrid, p: MapPosition) -> Seq<MapPosition> {
    free_scan(grid, p, 0)
}

/// The first scan index at or after `k` that yields an unoccupied
/// neighbor, if any.
pub open spec fn first_free_from(grid: OccupancyGrid, p: MapPosition, k: int) -> Option<int>
    decreases 9 - k when k <= 9
{
    if k >= 9 {
        None
    } else if k != 4 && !grid.occupied_spec(scan_cell(p, k)) {
        Some(k)
    } else {
        first_free_from(grid, p, k + 1)
    }
}

/// Every cell the scan yields is unoccupied.
pub proof fn lemma_free_scan_free(grid: OccupancyGrid, p: MapPosition, k: int)
    requires
        0 <= k <= 9,
    ensures
        forall|t: int| 0 <= t < free_scan(grid, p, k).len()
            ==> !grid.occupied_spec(#[trigger] free_scan(grid, p, k)[t]),
    decreases 9 - k,
{
    if k < 9 {
        lemma_free_scan_free(grid, p, k + 1);
        let c = scan_cell(p, k);
        if !(k == 4 || grid.occupied_spec(c)) {
            assert forall|t: int| 0 <= t < free_scan(grid, p, k).len()
                implies !grid.occupied_spec(#[trigger] free_scan(grid, p, k)[t]) by {
                if t == 0 {
                    assert(free_scan(grid, p, k)[0] == c);
                } else {
                    assert(free_scan(grid, p, k)[t] == free_scan(grid, p, k + 1)[t - 1]);
                }
            }
        } else {
            assert forall|t: int| 0 <= t < free_scan(grid, p, k).len()
                implies !grid.occupied_spec(#[trigger] free_scan(grid, p, k)[t]) by {
                assert(free_scan(grid, p, k)[t] == free_scan(grid, p, k + 1)[t]);
            }
        }
    }
}

/// When nothing free remains, the remaining scan is empty.
proof fn lemma_free_scan_none(grid: OccupancyGrid, p: MapPosition, k: int)
    requires
        0 <= k <= 9,
        first_free_from(grid, p, k) is None,
    ensures
        free_scan(grid, p, k) == Seq::<MapPosition>::empty(),
    decreases 9 - k,
{
    if k < 9 {
        lemma_free_scan_none(grid, p, k + 1);
    }
}

/// The remaining scan starts with the first free neighbor.
proof fn lemma_free_scan_some(grid: OccupancyGrid, p: MapPosition, k: int)
    requires
        0 <= k <= 9,
        first_free_from(grid, p, k) is Some,
    ensures
        0 <= k <= first_free_from(grid, p, k).unwrap() < 9,
        free_scan(grid, p, k) == seq![
            scan_cell(p, first_free_from(grid, p, k).unwrap()),
        ] + free_scan(grid, p, first_free_from(grid, p, k).unwrap() + 1),
    decreases 9 - k,
{
    if k < 9 {
        if k != 4 && !grid.occupied_spec(scan_cell(p, k)) {
        } else {
            lemma_free_scan_some(grid, p, k + 1);
            assert(free_scan(grid, p, k) == free_scan(grid, p, k + 1));
        }
    }
}

/// Stateful scan over the unoccupied 8-neighborhood of an origin cell, in
/// a fixed row-major order.
pub struct UnoccupiedMapPositionIter {
    /// The cell whose neighborhood is scanned.
    pub origin: MapPosition,
    /// Horizontal position of the next cell to look at.
    pub x: isize,
    /// Vertical position of the next cell to look at.
    pub y: isize,
}

impl UnoccupiedMapPositionIter {
    /// Scan index of the next cell to look at, from 0 (top-left) to 9
    /// (exhausted).
    pub open spec fn index(self) -> int {
        (self.y - self.origin.y + 1) * 3 + (self.x - self.origin.x + 1)
    }

    pub open spec fn wf(self) -> bool {
        small_coords(self.origin)
        && self.x == self.origin.x - 1 + self.index() % 3
        && self.y == self.origin.y - 1 + self.index() / 3
        && 0 <= self.index() <= 9
    }

    /// Start a scan around `origin`.
    pub fn new(origin: MapPosition) -> (r: UnoccupiedMapPositionIter)
        requires
            small_coords(origin),
        ensures
            r.wf(),
            r.origin == origin,
            r.index() == 0,
    {
        UnoccupiedMapPositionIter { origin, x: origin.x - 1, y: origin.y - 1 }
    }

    /// The next unoccupied neighbor in scan order, if any; the origin
    /// itself is never yielded.
    pub fn next(&mut self, grid: &OccupancyGrid) -> (r: Option<MapPosition>)
        requires
            grid.wf(),
            old(self).wf(),
        ensures
            final(self).wf(),
            final(self).origin == old(self).origin,
            old(self).index() <= final(self).index(),
            match first_free_from(*grid, old(self).origin, old(self).index()) {
                Some(j) => r == Some(scan_cell(old(self).origin, j))
                    && final(self).index() == j + 1,
                None => r is None && final(self).index() == 9,
            },
    {
        let ox = self.origin.x;
        let oy = self.origin.y;
        let mut k: usize = (((self.y - (oy - 1)) * 3) + (self.x - (ox - 1))) as usize;
        proof {
            assert(k == old(self).index());
        }
        let mut found: Option<MapPosition> = None;
        while k < 9
            invariant
                grid.wf(),
                small_coords(self.origin),
                ox == self.origin.x,
                oy == self.origin.y,
                self.origin == old(self).origin,
                old(self).index() <= k <= 9,
                found is None,
                first_free_from(*grid, self.origin, old(self).index())
                    == first_free_from(*grid, self.origin, k as int),
            decreases 9 - k,
        {
            let cx = ox - 1 + (k % 3) as isize;
            let cy = oy - 1 + (k / 3) as isize;
            let cell = MapPosition { x: cx, y: cy };
            proof {
                assert(cell == scan_cell(self.origin, k as int));
            }
            if k != 4 && !cell.is_occupied(grid) {
                let j = k + 1;
                self.x = ox - 1 + (j % 3) as isize;
                self.y = oy - 1 + (j / 3) as isize;
                proof {
                    assert(self.index() == j);
                }
                return Some(cell);
            }
            k += 1;
        }
        self.x = ox - 1;
        self.y = oy + 2;
        proof {
            assert(self.index() == 9);
        }
        None
    }
}

impl MapPosition {
    pub fn new(x: isize, y: isize) -> (r: MapPosition)
        ensures
            r.x == x,
            r.y == y,
    {
        MapPosition { x, y }
    }

    /// Whether this cell counts as occupied on the given grid.
    pub fn is_occupied(self, grid: &OccupancyGrid) -> (r: bool)
        requires
            grid.wf(),
        ensures
            r == grid.occupied_spec(self),
    {
        if self.x < 0 || self.y < 0 {
            return true;
        }
        let x = self.x as usize;
        let y = self.y as usize;
        if x >= grid.width || y >= grid.height {
            return true;
        }
        let len = grid.cells.len();
        proof {
            lemma_cell_index(x as int, y as int, grid.width as int, grid.height as int);
        }
        grid.cells[y * grid.width + x]
    }

    /// Grid cell of a world position: shift by half the world's extent,
    /// divide by the cell size, clamp into range. Never out of bounds,
    /// whatever the input.
    pub fn from_world(wx: i64, wy: i64) -> (r: MapPosition)
        ensures
            r.x as int == clamp_spec((wx + BOUNDARY_X) / (CELL_SIZE as int), 0, MAP_MAX_X - 1),
            r.y as int == clamp_spec((wy + BOUNDARY_Y) / (CELL_SIZE as int), 0, MAP_MAX_Y - 1),
            0 <= r.x < MAP_MAX_X,
            0 <= r.y < MAP_MAX_Y,
    {
        let x: isize = if wx <= -BOUNDARY_X {
            0
        } else if wx >= MAP_MAX_X as i64 * CELL_SIZE - BOUNDARY_X {
            (MAP_MAX_X - 1) as isize
        } else {
            ((wx + BOUNDARY_X) / CELL_SIZE) as isize
        };
        let y: isize = if wy <= -BOUNDARY_Y {
            0
        } else if wy >= MAP_MAX_Y as i64 * CELL_SIZE - BOUNDARY_Y {
            (MAP_MAX_Y - 1) as isize
        } else {
            ((wy + BOUNDARY_Y) / CELL_SIZE) as isize
        };
        MapPosition { x, y }
    }

    /// Manhattan grid distance to another cell.
    pub fn distance(self, other: MapPosition) -> (r: isize)
        requires
            small_coords(self),
            small_coords(other),
        ensures
            r == manhattan(self, other),
    {
        let dx = if self.x >= other.x { self.x - other.x } else { other.x - self.x };
        let dy = if self.y >= other.y { self.y - other.y } else { other.y - self.y };
        dx + dy
    }

    /// The unoccupied cells of this cell's 8-neighborhood, in a fixed
    /// row-major scan order.
    pub fn adjacent_positions(self, grid: &OccupancyGrid) -> (r: Vec<MapPosition>)
        requires
            grid.wf(),
            small_coords(self),
        ensures
            r@ == free_neighbors(*grid, self),
    {
        let mut it = UnoccupiedMapPositionIter::new(self);
        let mut result: Vec<MapPosition> = Vec::new();
        loop
            invariant
                grid.wf(),
                it.wf(),
                it.origin == self,
                result@ + free_scan(*grid, self, it.index()) == free_neighbors(*grid, self),
            decreases 9 - it.index(),
        {
            let ghost k0 = it.index();
            match it.next(grid) {
                None => {
                    proof {
                        lemma_free_scan_none(*grid, self, k0);
                        assert(result@ =~= free_neighbors(*grid, self));
                    }
                    return result;
                },
                Some(p) => {
                    proof {
                        lemma_free_scan_some(*grid, self, k0);
                        assert(result@.push(p) + free_scan(*grid, self, it.index())
                            =~= free_neighbors(*grid, self));
                    }
                    result.push(p);
                },
            }
        }
    }

    /// World-space center of this grid cell; the inverse of the
    /// world-to-grid transform, up to discretization.
    pub fn to_world(self) -> (r: (i64, i64))
        requires
            0 <= self.x < MAP_MAX_X,
            0 <= self.y < MAP_MAX_Y,
        ensures
            r.0 == self.x as int * CELL_SIZE + CELL_SIZE / 2 - BOUNDARY_X,
            r.1 == self.y as int * CELL_SIZE + CELL_SIZE / 2 - BOUNDARY_Y,
    {
        (
            self.x as i64 * CELL_SIZE + CELL_SIZE / 2 - BOUNDARY_X,
            self.y as i64 * CELL_SIZE + CELL_SIZE / 2 - BOUNDARY_Y,
        )
    }
}

} // verus!
