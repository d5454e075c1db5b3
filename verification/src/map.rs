//! The tile grid of one dungeon level.

use vstd::prelude::*;
use crate::geometry::Point;

verus! {

pub const SCREEN_WIDTH: i32 = 80;

pub const SCREEN_HEIGHT: i32 = 50;

pub const NUM_TILES: usize = 4000;

#[derive(Copy, Clone, Debug, PartialEq, Eq, Structural)]
pub enum TileType {
    Wall,
    Floor,
    Exit,
}

/// A level: one tile per grid cell in row-major order, and for each cell
/// whether the player has seen it since the level was built.
pub struct TileGrid {
    pub tiles: Vec<TileType>,
    pub revealed_tiles: Vec<bool>,
}

/// Whether `(x, y)` lies on the grid.
pub open spec fn on_grid(x: int, y: int) -> bool {
    0 <= x < SCREEN_WIDTH && 0 <= y < SCREEN_HEIGHT
}

/// Row-major index of `(x, y)`.
pub open spec fn spec_map_idx(x: int, y: int) -> int {
    y * SCREEN_WIDTH + x
}

/// The point whose row-major index is `idx`.
pub open spec fn spec_idx_point(idx: int) -> Point {
    Point { x: (idx % SCREEN_WIDTH as int) as i32, y: (idx / SCREEN_WIDTH as int) as i32 }
}

pub fn map_idx(x: i32, y: i32) -> (idx: usize)
    requires
        on_grid(x as int, y as int),
    ensures
        idx == spec_map_idx(x as int, y as int),
        idx < NUM_TILES,
{
    ((y * SCREEN_WIDTH) + x) as usize
}

impl TileGrid {
    /// Every table of the level has one entry per grid cell.
    pub open spec fn wf(&self) -> bool {
        self.tiles.len() == NUM_TILES && self.revealed_tiles.len() == NUM_TILES
    }

    /// The tile at the point `p`, which lies on the grid.
    pub open spec fn tile_at(&self, p: Point) -> TileType {
        self.tiles[spec_map_idx(p.x as int, p.y as int)]
    }

    pub open spec fn spec_in_bounds(p: Point) -> bool {
        on_grid(p.x as int, p.y as int)
    }

    /// A point can be entered when it lies on the grid and holds no wall.
    pub open spec fn spec_can_enter(&self, p: Point) -> bool {
        enterable(self.tiles@, p)
    }

    pub fn new() -> (m: TileGrid)
        ensures
            m.wf(),
            forall|i: int| 0 <= i < NUM_TILES ==> m.tiles[i] == TileType::Floor,
            forall|i: int| 0 <= i < NUM_TILES ==> !m.revealed_tiles[i],
    {
        TileGrid { tiles: vec![TileType::Floor; NUM_TILES], revealed_tiles: vec![false; NUM_TILES] }
    }

    pub fn in_bounds(&self, point: Point) -> (b: bool)
        ensures
            b == Self::spec_in_bounds(point),
    {
        point.x >= 0 && point.x < SCREEN_WIDTH && point.y >= 0 && point.y < SCREEN_HEIGHT
    }

    pub fn try_idx(&self, point: Point) -> (r: Option<usize>)
        ensures
            match r {
                Some(idx) => Self::spec_in_bounds(point) && idx == spec_map_idx(
                    point.x as int,
                    point.y as int,
                ) && idx < NUM_TILES,
                None => !Self::spec_in_bounds(point),
            },
    {
        if !self.in_bounds(point) {
            None
        } else {
            Some(map_idx(point.x, point.y))
        }
    }

    pub fn can_enter_tile(&self, point: Point) -> (b: bool)
        requires
            self.wf(),
        ensures
            b == self.spec_can_enter(point),
    {
        self.in_bounds(point) && self.tiles[map_idx(point.x, point.y)] != TileType::Wall
    }

    /// The index of the tile reached from `loc` by the step `delta`, if that
    /// tile can be entered.
    pub fn valid_exit(&self, loc: Point, delta: Point) -> (r: Option<usize>)
        requires
            self.wf(),
            i32::MIN <= loc.x + delta.x <= i32::MAX,
            i32::MIN <= loc.y + delta.y <= i32::MAX,
        ensures
            r == self.spec_valid_exit(loc, delta),
    {
        let destination = Point::new(loc.x + delta.x, loc.y + delta.y);
        if self.in_bounds(destination) {
            if self.can_enter_tile(destination) {
                let idx = self.point2d_to_index(destination);
                Some(idx)
            } else {
                None
            }
        } else {
            None
        }
    }

    pub open spec fn spec_valid_exit(&self, loc: Point, delta: Point) -> Option<usize> {
        let destination = Point { x: (loc.x + delta.x) as i32, y: (loc.y + delta.y) as i32 };
        if self.spec_can_enter(destination) {
            Some(spec_map_idx(destination.x as int, destination.y as int) as usize)
        } else {
            None
        }
    }

    pub fn point2d_to_index(&self, point: Point) -> (idx: usize)
        requires
            Self::spec_in_bounds(point),
        ensures
            idx == spec_map_idx(point.x as int, point.y as int),
            idx < NUM_TILES,
    {
        map_idx(point.x, point.y)
    }

    pub fn index_to_point2d(&self, idx: usize) -> (p: Point)
        requires
            idx < NUM_TILES,
        ensures
            p == spec_idx_point(idx as int),
            Self::spec_in_bounds(p),
            spec_map_idx(p.x as int, p.y as int) == idx,
    {
        Point::new((idx % 80) as i32, (idx / 80) as i32)
    }

    /// The tiles that can be entered from tile `idx` by one step, in the
    /// order left, right, up, down.
    pub fn get_available_exits(&self, idx: usize) -> (exits: Vec<usize>)
        requires
            self.wf(),
            idx < NUM_TILES,
        ensures
            exits@ == spec_exits(self.tiles@, idx as int),
            forall|j: int| 0 <= j < exits.len() ==> passable(self.tiles@, #[trigger] exits[j] as int),
    {
        let mut exits: Vec<usize> = Vec::new();
        let location = self.index_to_point2d(idx);
        let mut dir: u8 = 0;
        while dir < 4
            invariant
                self.wf(),
                idx < NUM_TILES,
                dir <= 4,
                location == spec_idx_point(idx as int),
                Self::spec_in_bounds(location),
                exits@ == spec_exits_upto(self.tiles@, idx as int, dir as int),
                forall|j: int|
                    0 <= j < exits.len() ==> passable(self.tiles@, #[trigger] exits[j] as int),
            decreases 4 - dir,
        {
            if let Some(next) = self.valid_exit(location, direction(dir)) {
                exits.push(next);
            }
            dir = dir + 1;
        }
        exits
    }

    /// A wall blocks the line of sight; every other tile lets it through.
    pub fn is_opaque(&self, idx: usize) -> (b: bool)
        requires
            self.wf(),
            idx < NUM_TILES,
        ensures
            b == (self.tiles[idx as int] == TileType::Wall),
    {
        self.tiles[idx] == TileType::Wall
    }
}

/// The unit step with number `dir`: 0 is left, 1 right, 2 up, 3 down.
pub open spec fn spec_direction(dir: int) -> Point {
    if dir == 0 {
        Point { x: -1i32, y: 0 }
    } else if dir == 1 {
        Point { x: 1, y: 0 }
    } else if dir == 2 {
        Point { x: 0, y: -1i32 }
    } else {
        Point { x: 0, y: 1 }
    }
}

pub fn direction(dir: u8) -> (delta: Point)
    ensures
        delta == spec_direction(dir as int),
{
    if dir == 0 {
        Point::new(-1, 0)
    } else if dir == 1 {
        Point::new(1, 0)
    } else if dir == 2 {
        Point::new(0, -1)
    } else {
        Point::new(0, 1)
    }
}

/// The grid neighbour of tile `idx` in direction `dir`, if the grid has one there.
pub open spec fn spec_step(idx: int, dir: int) -> Option<int> {
    let p = spec_idx_point(idx);
    let d = spec_direction(dir);
    if on_grid(p.x + d.x, p.y + d.y) {
        Some(spec_map_idx(p.x + d.x, p.y + d.y))
    } else {
        None
    }
}

/// Whether `p` lies on the grid and holds no wall.
pub open spec fn enterable(tiles: Seq<TileType>, p: Point) -> bool {
    on_grid(p.x as int, p.y as int) && tiles[spec_map_idx(p.x as int, p.y as int)] != TileType::Wall
}

/// Whether `idx` is a grid cell that holds no wall.
pub open spec fn passable(tiles: Seq<TileType>, idx: int) -> bool {
    0 <= idx < NUM_TILES && tiles[idx] != TileType::Wall
}

/// The neighbour of `idx` in direction `dir` when it can be entered.
pub open spec fn spec_exit(tiles: Seq<TileType>, idx: int, dir: int) -> Option<int> {
    match spec_step(idx, dir) {
        Some(next) => if passable(tiles, next) {
            Some(next)
        } else {
            None
        },
        None => None,
    }
}

/// The exits of `idx` among the first `n` directions, in order.
pub open spec fn spec_exits_upto(tiles: Seq<TileType>, idx: int, n: int) -> Seq<usize>
    decreases n,
{
    if n <= 0 {
        Seq::empty()
    } else {
        let before = spec_exits_upto(tiles, idx, n - 1);
        match spec_exit(tiles, idx, n - 1) {
            Some(next) => before.push(next as usize),
            None => before,
        }
    }
}

pub open spec fn spec_exits(tiles: Seq<TileType>, idx: int) -> Seq<usize> {
    spec_exits_upto(tiles, idx, 4)
}

} // verus!
