//! Wingman, a component that attacks a player.
//!
//! Once spawned, a wingman can only be shut down by raising an atomic flag
//! that is provided on startup. Each tick of its pursuit loop reduces to a
//! pure planning step over the occupancy grid: pick a point to aim at and
//! decide whether to fire.

use vstd::prelude::*;
use std::sync::Arc;
use std::sync::atomic::{AtomicBool, Ordering};
use crate::path::{first_block_at, line_blocked, line_cell, reachable};
use crate::types::{
    CELL_SIZE, BOUNDARY_X, BOUNDARY_Y, MAP_MAX_X, MAP_MAX_Y, MapPosition, OccupancyGrid,
    adjacent8, clamp_spec, free_neighbors, lemma_free_scan_free, manhattan,
};

verus! {

/// Firing is enabled within this straight-line distance, in world units.
pub const MIN_FIRE_DIST: i64 = 500;

/// Flag used to shut down a wingman's event loop.
///
/// The fleet manager raises it exactly once; the owning wingman polls it
/// between suspension points. The transition is monotonic: once raised it
/// never resets. Nothing can be promised about the value a read returns,
/// since another thread may raise the flag at any moment.
#[derive(Clone)]
pub struct Flag {
    inner: Arc<AtomicBool>,
}

impl Flag {
    /// A fresh, unraised flag.
    pub fn new() -> Flag {
        Flag { inner: Arc::new(AtomicBool::new(false)) }
    }

    /// Whether the flag has been raised.
    pub fn read(&self) -> bool {
        (*self.inner).load(Ordering::SeqCst)
    }

    /// Raise the flag; the owning wingman stops at its next check.
    pub fn raise(&self) {
        (*self.inner).store(true, Ordering::SeqCst);
    }
}

/// The grid cell of a world position, as the transform computes it.
pub open spec fn world_cell(wx: int, wy: int) -> MapPosition {
    MapPosition {
        x: clamp_spec((wx + BOUNDARY_X) / (CELL_SIZE as int), 0, MAP_MAX_X - 1) as isize,
        y: clamp_spec((wy + BOUNDARY_Y) / (CELL_SIZE as int), 0, MAP_MAX_Y - 1) as isize,
    }
}

/// World-space center of a grid cell.
pub open spec fn cell_world_x(c: MapPosition) -> int {
    c.x * CELL_SIZE + CELL_SIZE / 2 - BOUNDARY_X
}

pub open spec fn cell_world_y(c: MapPosition) -> int {
    c.y * CELL_SIZE + CELL_SIZE / 2 - BOUNDARY_Y
}

/// The target is within firing distance: straight-line distance below
/// `MIN_FIRE_DIST` world units.
pub open spec fn in_fire_range(ox: int, oy: int, tx: int, ty: int) -> bool {
    (tx - ox) * (tx - ox) + (ty - oy) * (ty - oy) < MIN_FIRE_DIST * MIN_FIRE_DIST
}

/// Where the pursuit actually routes to: the target's cell, or, when that
/// cell is occupied, the first unoccupied cell of its 8-neighborhood in
/// scan order; nothing when the whole neighborhood is occupied, in which
/// case pathfinding is skipped for the tick.
pub open spec fn pursuit_dest(grid: OccupancyGrid, dst: MapPosition) -> Option<MapPosition> {
    if !grid.occupied_spec(dst) {
        Some(dst)
    } else if free_neighbors(grid, dst).len() > 0 {
        Some(free_neighbors(grid, dst)[0])
    } else {
        None
    }
}

/// One tick's worth of pursuit decisions.
pub struct TickPlan {
    /// World position to aim and head at.
    pub aim_x: i64,
    /// World position to aim and head at.
    pub aim_y: i64,
    /// Whether to hold the fire key down this tick.
    pub fire: bool,
}

/// The aim stays on the target's raw position.
pub open spec fn aim_raw(r: TickPlan, tx: int, ty: int) -> bool {
    r.aim_x == tx && r.aim_y == ty
}

/// The aim was overridden with the world center of the second cell of a
/// found path: an unoccupied cell adjacent to the unit's own cell.
pub open spec fn aim_detour(grid: OccupancyGrid, src: MapPosition, r: TickPlan) -> bool {
    exists|c: MapPosition| adjacent8(src, c) && !grid.occupied_spec(c)
        && r.aim_x == cell_world_x(c) && r.aim_y == cell_world_y(c)
}

/// Everything a pursuit tick owes, given own and target world positions.
pub open spec fn plan_ok(grid: OccupancyGrid, ox: int, oy: int, tx: int, ty: int, r: TickPlan) -> bool {
    let src = world_cell(ox, oy);
    match pursuit_dest(grid, world_cell(tx, ty)) {
        // No cell to route to: pathfinding skipped, raw aim, plain fire gate.
        None => r.fire == in_fire_range(ox, oy, tx, ty) && aim_raw(r, tx, ty),
        Some(dest) => if !line_blocked(grid, src, dest) {
            // Clear line of sight: raw aim, plain fire gate.
            r.fire == in_fire_range(ox, oy, tx, ty) && aim_raw(r, tx, ty)
        } else {
            // No line of sight: never fire, and aim by the first obstacle.
            !r.fire && exists|i: int| #[trigger] first_block_at(grid, src, dest, i) && {
                if manhattan(line_cell(src, dest, i), src) >= 16 {
                    // The obstacle is far: just head for the raw target.
                    aim_raw(r, tx, ty)
                } else if !reachable(grid, src, dest) || src == dest {
                    // No path, or nowhere to go: keep the raw target.
                    aim_raw(r, tx, ty)
                } else {
                    // Head for the second cell of a found path.
                    aim_detour(grid, src, r)
                }
            }
        },
    }
}

/// A wingman: one autonomous bot pursuing one target player.
pub struct Wingman;

impl Wingman {
    /// Plan one pursuit tick: decide the aim point and the fire gate from
    /// own and target world positions over the standard grid.
    ///
    /// Firing needs the target within `MIN_FIRE_DIST` and an unblocked
    /// line of sight. When the line is blocked and the obstacle is within
    /// 16 cells, a shortest path is searched and the aim moves to the
    /// world center of its second cell; a farther obstacle skips the
    /// search and keeps the raw heading.
    pub fn plan_tick(grid: &OccupancyGrid, ox: i64, oy: i64, tx: i64, ty: i64) -> (r: TickPlan)
        requires
            grid.wf(),
            grid.width == MAP_MAX_X,
            grid.height == MAP_MAX_Y,
            -0x4000_0000 <= ox <= 0x4000_0000,
            -0x4000_0000 <= oy <= 0x4000_0000,
            -0x4000_0000 <= tx <= 0x4000_0000,
            -0x4000_0000 <= ty <= 0x4000_0000,
        ensures
            plan_ok(*grid, ox as int, oy as int, tx as int, ty as int, r),
    {
        // Fire when close to the target.
        let dx = tx - ox;
        let dy = ty - oy;
        let close: bool;
        if -MIN_FIRE_DIST < dx && dx < MIN_FIRE_DIST && -MIN_FIRE_DIST < dy && dy < MIN_FIRE_DIST {
            proof {
                assert(0 <= (dx as int) * (dx as int) < 0x40000
                    && 0 <= (dy as int) * (dy as int) < 0x40000) by (nonlinear_arith)
                    requires -500 < dx < 500 && -500 < dy < 500;
            }
            close = dx * dx + dy * dy < MIN_FIRE_DIST * MIN_FIRE_DIST;
        } else {
            close = false;
        }
        proof {
            if !(-MIN_FIRE_DIST < dx < MIN_FIRE_DIST) || !(-MIN_FIRE_DIST < dy < MIN_FIRE_DIST) {
                assert((dx as int) * (dx as int) + (dy as int) * (dy as int)
                    >= MIN_FIRE_DIST * MIN_FIRE_DIST) by (nonlinear_arith)
                    requires dx >= MIN_FIRE_DIST || dx <= -MIN_FIRE_DIST || dy >= MIN_FIRE_DIST
                        || dy <= -MIN_FIRE_DIST;
            }
        }
        let src = MapPosition::from_world(ox, oy);
        let dst = MapPosition::from_world(tx, ty);
        proof {
            assert(src == world_cell(ox as int, oy as int));
            assert(dst == world_cell(tx as int, ty as int));
        }

        // The search would sweep the whole map if the destination itself
        // is occupied, so route to a free adjacent cell instead; with none
        // free, skip pathfinding for this tick entirely.
        let mut dest = dst;
        if dst.is_occupied(grid) {
            let adj = dst.adjacent_positions(grid);
            if adj.len() > 0 {
                dest = adj[0];
                proof {
                    lemma_free_scan_free(*grid, dst, 0);
                    assert(!grid.occupied_spec(dest));
                }
            } else {
                // No free cell around the target: skip pathfinding, keep
                // the plain fire gate and the raw heading.
                return TickPlan { aim_x: tx, aim_y: ty, fire: close };
            }
        }
        proof {
            assert(Some(dest) == pursuit_dest(*grid, dst));
            assert(0 <= dest.x < grid.width && 0 <= dest.y < grid.height);
        }

        // Pathfind only when an obstacle stands between us and the
        // destination.
        match src.obstacle_between(dest, grid) {
            None => {
                // Clear line of sight.
                TickPlan { aim_x: tx, aim_y: ty, fire: close }
            },
            Some(ob) => {
                // No line of sight: hold fire. Search only when the
                // obstacle is near; a distant one can simply be headed
                // toward for now.
                let ghost i0 = choose|i: int| #[trigger] first_block_at(*grid, src, dest, i)
                    && ob == line_cell(src, dest, i);
                if ob.distance(src) < 16 {
                    if !(src.x == dest.x && src.y == dest.y) {
                        match src.find_path(dest, grid) {
                            None => {
                                proof {
                                    assert(first_block_at(*grid, src, dest, i0)
                                        && !reachable(*grid, src, dest));
                                }
                                TickPlan { aim_x: tx, aim_y: ty, fire: false }
                            },
                            Some(positions) => {
                                proof {
                                    assert(positions@.len() >= 2) by {
                                        assert(positions@[0] == src);
                                        assert(positions@.last() == dest);
                                    }
                                    assert(adjacent8(positions@[0int], positions@[0int + 1]));
                                    assert(!grid.occupied_spec(positions@[1]));
                                }
                                let step = positions[1];
                                let (wx, wy) = step.to_world();
                                let r = TickPlan { aim_x: wx, aim_y: wy, fire: false };
                                proof {
                                    assert(step == positions@[1]);
                                    assert(adjacent8(src, step));
                                    assert(!grid.occupied_spec(step));
                                    assert(r.aim_x == cell_world_x(step));
                                    assert(r.aim_y == cell_world_y(step));
                                    assert(aim_detour(*grid, src, r));
                                    assert(first_block_at(*grid, src, dest, i0));
                                }
                                r
                            },
                        }
                    } else {
                        proof {
                            assert(first_block_at(*grid, src, dest, i0));
                        }
                        TickPlan { aim_x: tx, aim_y: ty, fire: false }
                    }
                } else {
                    proof {
                        assert(first_block_at(*grid, src, dest, i0)
                            && manhattan(line_cell(src, dest, i0), src) >= 16);
                    }
                    TickPlan { aim_x: tx, aim_y: ty, fire: false }
                }
            },
        }
    }

    /// Pause between pursuit ticks: twice the measured round-trip latency,
    /// at least 10 and at most 1000 milliseconds.
    pub fn tick_delay_millis(ping: u32) -> (r: u64)
        ensures
            r == clamp_spec(2 * ping, 10, 1000),
    {
        let doubled = (ping as u64) * 2;
        if doubled > 1000 {
            1000
        } else if doubled < 10 {
            10
        } else {
            doubled
        }
    }
}

} // verus!
