//! Why corridors join what they are dug between: every room of a level of
//! rooms is within reach of every other.

use vstd::prelude::*;
use crate::distance::{
    lemma_reach_back, lemma_reach_chain, lemma_reach_fewer_walls, lemma_reach_monotone,
    lemma_reach_step, reach_within,
};
use crate::geometry::{abs_diff, Point, Rect};
use crate::map::{on_grid, passable, spec_idx_point, spec_map_idx, TileGrid, TileType, NUM_TILES};
use crate::map_builder::{
    insert_pos, lemma_corridors_only_floor, room_centers, sorted_by_x, spec_corridor,
    spec_corridors, spec_joined, NUM_ROOMS,
};

verus! {

/// The number of steps within which every room of a level of rooms is
/// within reach of every other.
pub const ROOMS_REACH: u32 = 5200;

/// Whether the tiles of row `y` from column `lo` to column `hi` can be entered.
pub open spec fn row_open(tiles: Seq<TileType>, y: int, lo: int, hi: int) -> bool {
    forall|x: int| lo <= x <= hi ==> passable(tiles, #[trigger] spec_map_idx(x, y))
}

/// Whether the tiles of column `x` from row `lo` to row `hi` can be entered.
pub open spec fn column_open(tiles: Seq<TileType>, x: int, lo: int, hi: int) -> bool {
    forall|y: int| lo <= y <= hi ==> passable(tiles, #[trigger] spec_map_idx(x, y))
}

/// The lesser of two numbers.
pub open spec fn lesser(a: int, b: int) -> int {
    if a <= b {
        a
    } else {
        b
    }
}

/// The greater of two numbers.
pub open spec fn greater(a: int, b: int) -> int {
    if a <= b {
        b
    } else {
        a
    }
}

/// The index of the tile at a point.
pub open spec fn tile_of(p: Point) -> int {
    spec_map_idx(p.x as int, p.y as int)
}

/// Along an open stretch of a row one end is within reach of the other.
pub proof fn lemma_row_connects(tiles: Seq<TileType>, y: int, x1: int, x2: int)
    requires
        on_grid(x1, y),
        on_grid(x2, y),
        row_open(tiles, y, lesser(x1, x2), greater(x1, x2)),
    ensures
        reach_within(
            tiles,
            seq![spec_map_idx(x1, y) as usize],
            spec_map_idx(x2, y),
            abs_diff(x1, x2) as nat,
        ),
    decreases abs_diff(x1, x2),
{
    let sources = seq![spec_map_idx(x1, y) as usize];
    assert(sources[0] == spec_map_idx(x1, y) as usize);
    if x1 != x2 {
        let before = if x2 > x1 {
            x2 - 1
        } else {
            x2 + 1
        };
        let dir = if x2 > x1 {
            1int
        } else {
            0int
        };
        lemma_row_connects(tiles, y, x1, before);
        assert(passable(tiles, spec_map_idx(x2, y)));
        lemma_reach_step(
            tiles,
            sources,
            spec_map_idx(before, y),
            dir,
            abs_diff(x1, before) as nat,
        );
    }
}

/// Along an open stretch of a column one end is within reach of the other.
pub proof fn lemma_column_connects(tiles: Seq<TileType>, x: int, y1: int, y2: int)
    requires
        on_grid(x, y1),
        on_grid(x, y2),
        column_open(tiles, x, lesser(y1, y2), greater(y1, y2)),
    ensures
        reach_within(
            tiles,
            seq![spec_map_idx(x, y1) as usize],
            spec_map_idx(x, y2),
            abs_diff(y1, y2) as nat,
        ),
    decreases abs_diff(y1, y2),
{
    let sources = seq![spec_map_idx(x, y1) as usize];
    assert(sources[0] == spec_map_idx(x, y1) as usize);
    if y1 != y2 {
        let before = if y2 > y1 {
            y2 - 1
        } else {
            y2 + 1
        };
        let dir = if y2 > y1 {
            3int
        } else {
            2int
        };
        lemma_column_connects(tiles, x, y1, before);
        assert(passable(tiles, spec_map_idx(x, y2)));
        lemma_reach_step(
            tiles,
            sources,
            spec_map_idx(x, before),
            dir,
            abs_diff(y1, before) as nat,
        );
    }
}

/// A corridor joins its ends: once it is dug, the one is within reach of
/// the other in as many steps as the two are apart.
pub proof fn lemma_corridor_connects(
    tiles: Seq<TileType>,
    prev: Point,
    new: Point,
    horizontal_first: bool,
)
    requires
        tiles.len() == NUM_TILES,
        TileGrid::spec_in_bounds(prev),
        TileGrid::spec_in_bounds(new),
    ensures
        reach_within(
            spec_corridor(tiles, prev, new, horizontal_first),
            seq![tile_of(prev) as usize],
            tile_of(new),
            prev.manhattan(new) as nat,
        ),
{
    let dug = spec_corridor(tiles, prev, new, horizontal_first);
    let px = prev.x as int;
    let py = prev.y as int;
    let nx = new.x as int;
    let ny = new.y as int;
    if horizontal_first {
        assert forall|x: int| lesser(px, nx) <= x <= greater(px, nx) implies passable(
            dug,
            #[trigger] spec_map_idx(x, py),
        ) by {
            assert(spec_idx_point(spec_map_idx(x, py)) == (Point { x: x as i32, y: py as i32 }));
        }
        assert forall|y: int| lesser(py, ny) <= y <= greater(py, ny) implies passable(
            dug,
            #[trigger] spec_map_idx(nx, y),
        ) by {
            assert(spec_idx_point(spec_map_idx(nx, y)) == (Point { x: nx as i32, y: y as i32 }));
        }
        lemma_row_connects(dug, py, px, nx);
        lemma_column_connects(dug, nx, py, ny);
        lemma_reach_chain(
            dug,
            seq![tile_of(prev) as usize],
            spec_map_idx(nx, py),
            tile_of(new),
            abs_diff(px, nx) as nat,
            abs_diff(py, ny) as nat,
        );
    } else {
        assert forall|y: int| lesser(py, ny) <= y <= greater(py, ny) implies passable(
            dug,
            #[trigger] spec_map_idx(px, y),
        ) by {
            assert(spec_idx_point(spec_map_idx(px, y)) == (Point { x: px as i32, y: y as i32 }));
        }
        assert forall|x: int| lesser(px, nx) <= x <= greater(px, nx) implies passable(
            dug,
            #[trigger] spec_map_idx(x, ny),
        ) by {
            assert(spec_idx_point(spec_map_idx(x, ny)) == (Point { x: x as i32, y: ny as i32 }));
        }
        lemma_column_connects(dug, px, py, ny);
        lemma_row_connects(dug, ny, px, nx);
        lemma_reach_chain(
            dug,
            seq![tile_of(prev) as usize],
            spec_map_idx(px, ny),
            tile_of(new),
            abs_diff(py, ny) as nat,
            abs_diff(px, nx) as nat,
        );
    }
}

/// Whether every point of the list lies on the grid.
pub open spec fn all_on_grid(points: Seq<Point>) -> bool {
    forall|j: int| 0 <= j < points.len() ==> TileGrid::spec_in_bounds(#[trigger] points[j])
}

/// Once `n` corridors are dug, each of them still joins its ends.
pub proof fn lemma_corridors_connect(
    tiles: Seq<TileType>,
    centers: Seq<Point>,
    flips: Seq<bool>,
    n: int,
    k: int,
)
    requires
        tiles.len() == NUM_TILES,
        all_on_grid(centers),
        0 <= k < n <= centers.len() - 1,
    ensures
        reach_within(
            spec_corridors(tiles, centers, flips, n),
            seq![tile_of(centers[k]) as usize],
            tile_of(centers[k + 1]),
            130,
        ),
    decreases n,
{
    let before = spec_corridors(tiles, centers, flips, n - 1);
    let after = spec_corridors(tiles, centers, flips, n);
    lemma_corridors_only_floor(tiles, centers, flips, n - 1, 0);
    lemma_corridors_only_floor(tiles, centers, flips, n, 0);
    assert(TileGrid::spec_in_bounds(centers[n - 1]));
    assert(TileGrid::spec_in_bounds(centers[n]));
    if k == n - 1 {
        lemma_corridor_connects(before, centers[k], centers[k + 1], flips[k]);
        lemma_reach_monotone(
            after,
            seq![tile_of(centers[k]) as usize],
            tile_of(centers[k + 1]),
            centers[k].manhattan(centers[k + 1]) as nat,
            130,
        );
    } else {
        lemma_corridors_connect(tiles, centers, flips, n - 1, k);
        assert forall|i: int| 0 <= i < NUM_TILES && #[trigger] after[i] == TileType::Wall implies before[i]
            == TileType::Wall by {}
        lemma_reach_fewer_walls(
            before,
            after,
            seq![tile_of(centers[k]) as usize],
            tile_of(centers[k + 1]),
            130,
        );
    }
}

/// Once all corridors are dug, every centre is within reach of the first.
pub proof fn lemma_first_reaches(
    tiles: Seq<TileType>,
    centers: Seq<Point>,
    flips: Seq<bool>,
    k: int,
)
    requires
        tiles.len() == NUM_TILES,
        all_on_grid(centers),
        0 <= k < centers.len(),
    ensures
        reach_within(
            spec_joined(tiles, centers, flips),
            seq![tile_of(centers[0]) as usize],
            tile_of(centers[k]),
            (130 * k) as nat,
        ),
    decreases k,
{
    let joined = spec_joined(tiles, centers, flips);
    let first = seq![tile_of(centers[0]) as usize];
    assert(first[0] == tile_of(centers[0]) as usize);
    assert(TileGrid::spec_in_bounds(centers[0]));
    if k > 0 {
        lemma_first_reaches(tiles, centers, flips, k - 1);
        lemma_corridors_connect(tiles, centers, flips, centers.len() - 1, k - 1);
        lemma_reach_chain(
            joined,
            first,
            tile_of(centers[k - 1]),
            tile_of(centers[k]),
            (130 * (k - 1)) as nat,
            130,
        );
    }
}

/// Once all corridors are dug, every centre that can be entered is within
/// reach of every other.
pub proof fn lemma_all_reach(
    tiles: Seq<TileType>,
    centers: Seq<Point>,
    flips: Seq<bool>,
    j: int,
    k: int,
)
    requires
        tiles.len() == NUM_TILES,
        all_on_grid(centers),
        0 <= j < centers.len(),
        0 <= k < centers.len(),
        passable(spec_joined(tiles, centers, flips), tile_of(centers[0])),
    ensures
        reach_within(
            spec_joined(tiles, centers, flips),
            seq![tile_of(centers[j]) as usize],
            tile_of(centers[k]),
            (130 * (j + k)) as nat,
        ),
{
    let joined = spec_joined(tiles, centers, flips);
    lemma_first_reaches(tiles, centers, flips, j);
    lemma_first_reaches(tiles, centers, flips, k);
    lemma_reach_back(joined, tile_of(centers[0]), tile_of(centers[j]), (130 * j) as nat);
    lemma_reach_chain(
        joined,
        seq![tile_of(centers[j]) as usize],
        tile_of(centers[0]),
        tile_of(centers[k]),
        (130 * j) as nat,
        (130 * k) as nat,
    );
}

/// A point goes into a sorted list at a place of the list or at its end.
pub proof fn lemma_insert_pos_in_range(sorted: Seq<Point>, x: int)
    ensures
        0 <= insert_pos(sorted, x) <= sorted.len(),
    decreases sorted.len(),
{
    if sorted.len() > 0 && sorted.last().x > x {
        lemma_insert_pos_in_range(sorted.drop_last(), x);
    }
}

/// Sorting loses and adds nothing: the sorted list is as long as the
/// list, every point of the list stands in it, and it holds nothing else.
pub proof fn lemma_sorted_holds_all(points: Seq<Point>)
    ensures
        sorted_by_x(points).len() == points.len(),
        forall|i: int|
            0 <= i < points.len() ==> sorted_by_x(points).contains(#[trigger] points[i]),
        forall|j: int|
            0 <= j < points.len() ==> points.contains(#[trigger] sorted_by_x(points)[j]),
    decreases points.len(),
{
    if points.len() > 0 {
        let rest = points.drop_last();
        let before = sorted_by_x(rest);
        let pos = insert_pos(before, points.last().x as int);
        let after = sorted_by_x(points);
        lemma_sorted_holds_all(rest);
        lemma_insert_pos_in_range(before, points.last().x as int);
        assert(after == before.insert(pos, points.last()));
        assert forall|i: int| 0 <= i < points.len() implies after.contains(
            #[trigger] points[i],
        ) by {
            if i == points.len() - 1 {
                assert(after[pos] == points[i]);
            } else {
                assert(rest[i] == points[i]);
                let at = choose|at: int| 0 <= at < before.len() && before[at] == rest[i];
                if at < pos {
                    assert(after[at] == before[at]);
                } else {
                    assert(after[at + 1] == before[at]);
                }
            }
        }
        assert forall|j: int| 0 <= j < points.len() implies points.contains(
            #[trigger] after[j],
        ) by {
            if j == pos {
                assert(points[points.len() - 1] == after[j]);
            } else {
                let at = if j < pos {
                    j
                } else {
                    j - 1
                };
                assert(after[j] == before[at]);
                let i = choose|i: int| 0 <= i < rest.len() && rest[i] == before[at];
                assert(points[i] == after[j]);
            }
        }
    }
}

/// Whether every room of the list is within reach of every other.
pub open spec fn rooms_joined(rooms: Seq<Rect>, tiles: Seq<TileType>) -> bool {
    forall|j: int, k: int|
        0 <= j < rooms.len() && 0 <= k < rooms.len() ==> reach_within(
            tiles,
            seq![#[trigger] tile_of(rooms[j].spec_center()) as usize],
            #[trigger] tile_of(rooms[k].spec_center()),
            ROOMS_REACH as nat,
        )
}

/// The corridors between the centres of the rooms, taken in the order of
/// their `x`, leave every room within reach of every other.
pub proof fn lemma_rooms_joined(rooms: Seq<Rect>, tiles: Seq<TileType>, flips: Seq<bool>)
    requires
        tiles.len() == NUM_TILES,
        rooms.len() <= NUM_ROOMS,
        all_on_grid(room_centers(rooms)),
        forall|k: int|
            0 <= k < rooms.len() ==> passable(tiles, tile_of(#[trigger] rooms[k].spec_center())),
    ensures
        rooms_joined(rooms, spec_joined(tiles, sorted_by_x(room_centers(rooms)), flips)),
{
    let centers = room_centers(rooms);
    let sorted = sorted_by_x(centers);
    let joined = spec_joined(tiles, sorted, flips);
    lemma_sorted_holds_all(centers);
    assert forall|j: int| 0 <= j < sorted.len() implies TileGrid::spec_in_bounds(
        #[trigger] sorted[j],
    ) && passable(tiles, tile_of(sorted[j])) by {
        let i = choose|i: int| 0 <= i < centers.len() && centers[i] == sorted[j];
        assert(TileGrid::spec_in_bounds(centers[i]));
        assert(centers[i] == rooms[i].spec_center());
    }
    assert forall|j: int, k: int| 0 <= j < rooms.len() && 0 <= k < rooms.len() implies reach_within(
        joined,
        seq![#[trigger] tile_of(rooms[j].spec_center()) as usize],
        #[trigger] tile_of(rooms[k].spec_center()),
        ROOMS_REACH as nat,
    ) by {
        assert(centers[j] == rooms[j].spec_center());
        assert(centers[k] == rooms[k].spec_center());
        let a = choose|a: int| 0 <= a < sorted.len() && sorted[a] == centers[j];
        let b = choose|b: int| 0 <= b < sorted.len() && sorted[b] == centers[k];
        lemma_corridors_only_floor(tiles, sorted, flips, sorted.len() - 1, tile_of(sorted[0]));
        lemma_all_reach(tiles, sorted, flips, a, b);
        lemma_reach_monotone(
            joined,
            seq![tile_of(sorted[a]) as usize],
            tile_of(sorted[b]),
            (130 * (a + b)) as nat,
            ROOMS_REACH as nat,
        );
    }
}

} // verus!
