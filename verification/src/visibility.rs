//! Which tiles an entity sees.
//!
//! A tile is in view when it lies within the radius and no tile between it
//! and the viewer blocks the straight line that joins the two. The line is
//! walked in as many steps as the two are apart along the longer axis; a
//! tile on it blocks when it holds a wall or lies off the grid.

use vstd::prelude::*;
use crate::geometry::Point;
use crate::map::{
    enterable, spec_idx_point, spec_map_idx, TileGrid, TileType, NUM_TILES, SCREEN_WIDTH,
};

verus! {

/// The number of steps between `a` and `b` along the longer axis.
pub open spec fn steps_apart(a: Point, b: Point) -> int {
    let dx = if b.x >= a.x {
        b.x - a.x
    } else {
        a.x - b.x
    };
    let dy = if b.y >= a.y {
        b.y - a.y
    } else {
        a.y - b.y
    };
    if dx >= dy {
        dx
    } else {
        dy
    }
}

/// The coordinate `j` of `n` steps of the way from `from` by `delta`,
/// rounded to the nearest integer, a half upwards.
pub open spec fn along(from: int, delta: int, j: int, n: int) -> int {
    from + (2 * (j * delta) + n + 2 * (n * n)) / (2 * n) - n
}

/// The point `j` steps along the line from `a` to `b`.
pub open spec fn line_point(a: Point, b: Point, j: int) -> Point {
    let n = steps_apart(a, b);
    Point {
        x: along(a.x as int, b.x - a.x, j, n) as i32,
        y: along(a.y as int, b.y - a.y, j, n) as i32,
    }
}

/// Whether the first `upto` steps of the line from `a` to `b`, the start
/// left out, lead over tiles that can be seen through.
pub open spec fn line_clear(tiles: Seq<TileType>, a: Point, b: Point, upto: int) -> bool {
    forall|j: int| 1 <= j < upto ==> enterable(tiles, #[trigger] line_point(a, b, j))
}

/// Whether `b` lies within `radius` of `a` as the crow flies.
pub open spec fn within_radius(a: Point, b: Point, radius: i32) -> bool {
    a.distance_squared(b) <= radius * radius
}

/// Whether the viewer at `origin` sees the tile `idx`.
pub open spec fn spec_visible(
    tiles: Seq<TileType>,
    origin: Point,
    radius: i32,
    idx: int,
) -> bool {
    let p = spec_idx_point(idx);
    within_radius(origin, p, radius) && line_clear(tiles, origin, p, steps_apart(origin, p))
}

/// The tiles that the viewer at `origin` sees.
pub open spec fn spec_field_of_view(
    tiles: Seq<TileType>,
    origin: Point,
    radius: i32,
) -> Seq<bool> {
    Seq::new(NUM_TILES as nat, |idx: int| spec_visible(tiles, origin, radius, idx))
}

/// The viewer sees the tile it stands on.
pub proof fn lemma_sees_own_tile(tiles: Seq<TileType>, origin: Point, radius: i32)
    requires
        TileGrid::spec_in_bounds(origin),
    ensures
        spec_visible(
            tiles,
            origin,
            radius,
            spec_map_idx(origin.x as int, origin.y as int),
        ),
{
    let idx = spec_map_idx(origin.x as int, origin.y as int);
    let p = spec_idx_point(idx);
    assert(p == origin);
    assert(radius * radius >= 0) by (nonlinear_arith);
    assert(origin.distance_squared(p) == 0);
    assert(steps_apart(origin, p) == 0);
    assert(line_clear(tiles, origin, p, 0));
}

/// Whether two grid points lie within `radius` of one another.
pub fn in_radius(a: Point, b: Point, radius: i32) -> (r: bool)
    requires
        TileGrid::spec_in_bounds(a),
        TileGrid::spec_in_bounds(b),
    ensures
        r == within_radius(a, b, radius),
{
    let dx: i64 = (a.x - b.x) as i64;
    let dy: i64 = (a.y - b.y) as i64;
    let reach: i64 = radius as i64;
    assert(0 <= dx * dx <= 6400 && 0 <= dy * dy <= 2500) by (nonlinear_arith)
        requires
            -80 < dx < 80,
            -50 < dy < 50,
    ;
    assert(0 <= reach * reach <= 0x4000_0000_0000_0000) by (nonlinear_arith)
        requires
            -0x8000_0000 <= reach <= 0x7fff_ffff,
    ;
    dx * dx + dy * dy <= reach * reach
}

/// The point `j` steps along the line between two grid points.
pub fn step_along(a: Point, b: Point, j: i32, n: i32) -> (p: Point)
    requires
        TileGrid::spec_in_bounds(a),
        TileGrid::spec_in_bounds(b),
        n == steps_apart(a, b),
        0 <= j <= n,
        n >= 1,
    ensures
        p == line_point(a, b, j as int),
{
    let dx: i32 = b.x - a.x;
    let dy: i32 = b.y - a.y;
    assert(-(n * n) <= j * dx <= n * n && -(n * n) <= j * dy <= n * n && 1 <= n * n <= 6400)
        by (nonlinear_arith)
        requires
            0 <= j <= n,
            1 <= n < 80,
            -n <= dx <= n,
            -n <= dy <= n,
    ;
    let jx: i32 = j * dx;
    let jy: i32 = j * dy;
    let nn: i32 = n * n;
    let x = a.x + (2 * jx + n + 2 * nn) / (2 * n) - n;
    let y = a.y + (2 * jy + n + 2 * nn) / (2 * n) - n;
    Point::new(x, y)
}

/// The number of steps between two grid points along the longer axis.
pub fn chebyshev(a: Point, b: Point) -> (n: i32)
    requires
        TileGrid::spec_in_bounds(a),
        TileGrid::spec_in_bounds(b),
    ensures
        n == steps_apart(a, b),
        0 <= n < SCREEN_WIDTH,
{
    let dx = if b.x >= a.x {
        b.x - a.x
    } else {
        a.x - b.x
    };
    let dy = if b.y >= a.y {
        b.y - a.y
    } else {
        a.y - b.y
    };
    if dx >= dy {
        dx
    } else {
        dy
    }
}

/// Whether nothing blocks the line between two grid points.
pub fn line_of_sight(map: &TileGrid, a: Point, b: Point) -> (clear: bool)
    requires
        map.wf(),
        TileGrid::spec_in_bounds(a),
        TileGrid::spec_in_bounds(b),
    ensures
        clear == line_clear(map.tiles@, a, b, steps_apart(a, b)),
{
    let n = chebyshev(a, b);
    let mut j: i32 = 1;
    while j < n
        invariant
            map.wf(),
            TileGrid::spec_in_bounds(a),
            TileGrid::spec_in_bounds(b),
            n == steps_apart(a, b),
            1 <= j,
            j <= n || n < 1,
            line_clear(map.tiles@, a, b, j as int),
        decreases n - j,
    {
        let p = step_along(a, b, j, n);
        if !map.can_enter_tile(p) {
            assert(!enterable(map.tiles@, line_point(a, b, j as int)));
            return false;
        }
        j = j + 1;
    }
    true
}

/// The tiles that a viewer at `origin` sees within `radius`.
pub fn field_of_view_set(origin: Point, radius: i32, map: &TileGrid) -> (visible: Vec<bool>)
    requires
        map.wf(),
        TileGrid::spec_in_bounds(origin),
    ensures
        visible@ == spec_field_of_view(map.tiles@, origin, radius),
{
    let mut visible: Vec<bool> = vec![false; NUM_TILES];
    let mut idx: usize = 0;
    while idx < NUM_TILES
        invariant
            map.wf(),
            TileGrid::spec_in_bounds(origin),
            idx <= NUM_TILES,
            visible.len() == NUM_TILES,
            forall|t: int|
                0 <= t < idx ==> #[trigger] visible[t] == spec_visible(map.tiles@, origin, radius, t),
            forall|t: int| idx <= t < NUM_TILES ==> !#[trigger] visible[t],
        decreases NUM_TILES - idx,
    {
        let p = map.index_to_point2d(idx);
        let near = in_radius(origin, p, radius);
        let seen = near && line_of_sight(map, origin, p);
        if seen {
            visible.set(idx, true);
        }
        assert(visible[idx as int] == spec_visible(map.tiles@, origin, radius, idx as int));
        idx = idx + 1;
    }
    assert(visible@ =~= spec_field_of_view(map.tiles@, origin, radius));
    visible
}

} // verus!
