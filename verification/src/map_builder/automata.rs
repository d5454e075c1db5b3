//! Caves grown by a cellular automaton.

use vstd::prelude::*;
use bracket_random::prelude::RandomNumberGenerator;
use crate::distance::is_most_distant;
use crate::distance::spec_distances;
use crate::geometry::{Point, Rect};
use crate::map_builder::themes::Theme;
use crate::map::{
    map_idx, spec_idx_point, spec_map_idx, TileGrid, TileType, NUM_TILES, SCREEN_HEIGHT,
    SCREEN_WIDTH,
};
use crate::map_builder::{
    no_exit, spawnable_count, spawnable_tile, GenerationError, MapArchitect, MapBuilder,
    MAX_DEPTH, NUM_MONSTERS,
};
use crate::rng::range;

verus! {

/// The number of smoothing passes that a level gets.
pub const ITERATIONS: usize = 10;

pub struct CellularAutomataArchitect {}

/// The tile that a roll from 0 to 99 seeds: a floor for a roll above 55, a wall else.
pub open spec fn spec_noise_tile(roll: int) -> TileType {
    if roll > 55 {
        TileType::Floor
    } else {
        TileType::Wall
    }
}

pub fn noise_tile(roll: i32) -> (tile: TileType)
    ensures
        tile == spec_noise_tile(roll as int),
{
    if roll > 55 {
        TileType::Floor
    } else {
        TileType::Wall
    }
}

/// Whether the tiles are what the rolls seed, one roll from 0 to 99 for each tile.
pub open spec fn seeded_by(tiles: Seq<TileType>, rolls: Seq<int>) -> bool {
    &&& tiles.len() == NUM_TILES
    &&& rolls.len() == NUM_TILES
    &&& forall|i: int|
        0 <= i < NUM_TILES ==> 0 <= #[trigger] rolls[i] < 100 && tiles[i] == spec_noise_tile(
            rolls[i],
        )
}

/// Whether the cell with number `k`, counted row by row through the three
/// by three block around `(x, y)`, is a neighbour that holds a wall.
pub open spec fn wall_neighbor(tiles: Seq<TileType>, x: int, y: int, k: int) -> bool {
    k != 4 && tiles[spec_map_idx(x + k % 3 - 1, y + k / 3 - 1)] == TileType::Wall
}

/// The number of wall neighbours of `(x, y)` among the first `k` cells of its block.
pub open spec fn walls_upto(tiles: Seq<TileType>, x: int, y: int, k: int) -> int
    decreases k,
{
    if k <= 0 {
        0
    } else {
        walls_upto(tiles, x, y, k - 1) + if wall_neighbor(tiles, x, y, k - 1) {
            1int
        } else {
            0int
        }
    }
}

/// The number of walls among the eight neighbours of `(x, y)`.
pub open spec fn spec_count_neighbors(tiles: Seq<TileType>, x: int, y: int) -> int {
    walls_upto(tiles, x, y, 9)
}

/// Whether `(x, y)` lies on the grid and off its outermost ring of tiles.
pub open spec fn interior(x: int, y: int) -> bool {
    1 <= x < SCREEN_WIDTH - 1 && 1 <= y < SCREEN_HEIGHT - 1
}

/// What a smoothing pass makes of a tile with `neighbors` walls around it.
pub open spec fn spec_rule(neighbors: int) -> TileType {
    if neighbors > 4 || neighbors == 0 {
        TileType::Wall
    } else {
        TileType::Floor
    }
}

/// The tile at `idx` after one smoothing pass.
pub open spec fn spec_smooth_tile(tiles: Seq<TileType>, idx: int) -> TileType {
    let p = spec_idx_point(idx);
    if interior(p.x as int, p.y as int) {
        spec_rule(spec_count_neighbors(tiles, p.x as int, p.y as int))
    } else {
        tiles[idx]
    }
}

/// The grid after one smoothing pass: every tile off the outermost ring
/// becomes a wall where it has no or more than four walls around it, and a
/// floor else.
pub open spec fn spec_smooth(tiles: Seq<TileType>) -> Seq<TileType> {
    Seq::new(NUM_TILES as nat, |idx: int| spec_smooth_tile(tiles, idx))
}

/// The grid after `n` smoothing passes.
pub open spec fn spec_smoothed(tiles: Seq<TileType>, n: nat) -> Seq<TileType>
    decreases n,
{
    if n == 0 {
        tiles
    } else {
        spec_smooth(spec_smoothed(tiles, (n - 1) as nat))
    }
}

/// A grid that a smoothing pass leaves as it is stays as it is under a second pass.
pub proof fn lemma_smooth_stable(tiles: Seq<TileType>)
    requires
        spec_smooth(tiles) == tiles,
    ensures
        spec_smooth(spec_smooth(tiles)) == tiles,
{
}

/// What the cave strategy makes of a smoothed grid: a level on that grid,
/// where the grid holds floor and enough of it lies away from the floor
/// tile nearest to the centre for the monsters to spawn on; the one
/// error where it holds no floor, and the other where too little lies away.
pub open spec fn grown_from(tiles: Seq<TileType>, r: Result<MapBuilder, GenerationError>) -> bool {
    match r {
        Ok(mb) => mb.map.tiles@ == tiles,
        Err(GenerationError::NoFloor) => forall|i: int|
            0 <= i < NUM_TILES ==> #[trigger] tiles[i] != TileType::Floor,
        Err(GenerationError::TooFewSpawnPoints) => exists|start: int|
            #[trigger] is_nearest_floor(tiles, start) && spawnable_count(
                tiles,
                spec_idx_point(start),
                NUM_TILES as int,
            ) < NUM_MONSTERS,
        Err(_) => false,
    }
}

/// The squared distance of tile `idx` from the centre of the grid.
pub open spec fn center_distance(idx: int) -> int {
    (Point { x: 40, y: 25 }).distance_squared(spec_idx_point(idx))
}

/// Whether `idx` is the first of the floor tiles nearest to the centre of the grid.
pub open spec fn is_nearest_floor(tiles: Seq<TileType>, idx: int) -> bool {
    &&& 0 <= idx < NUM_TILES
    &&& tiles[idx] == TileType::Floor
    &&& forall|j: int|
        0 <= j < NUM_TILES && #[trigger] tiles[j] == TileType::Floor ==> center_distance(idx)
            <= center_distance(j)
    &&& forall|j: int|
        0 <= j < idx && #[trigger] tiles[j] == TileType::Floor ==> center_distance(idx)
            < center_distance(j)
}

/// The squared distance of a grid point from the centre of the grid.
pub fn distance_to_center(p: Point) -> (d: i32)
    requires
        TileGrid::spec_in_bounds(p),
    ensures
        d == (Point { x: 40, y: 25 }).distance_squared(p),
        0 <= d <= 2225,
{
    let dx: i32 = SCREEN_WIDTH / 2 - p.x;
    let dy: i32 = SCREEN_HEIGHT / 2 - p.y;
    assert(0 <= dx * dx <= 1600 && 0 <= dy * dy <= 625) by (nonlinear_arith)
        requires
            -39 <= dx <= 40,
            -24 <= dy <= 25,
    ;
    dx * dx + dy * dy
}

impl CellularAutomataArchitect {
    /// Seeds every tile with a wall or a floor as the rolls fall.
    pub fn random_noise_map(&mut self, rng: &mut RandomNumberGenerator, map: &mut TileGrid)
        requires
            old(map).wf(),
        ensures
            final(map).wf(),
            final(map).revealed_tiles == old(map).revealed_tiles,
            exists|rolls: Seq<int>| #[trigger] seeded_by(final(map).tiles@, rolls),
    {
        let ghost mut rolls: Seq<int> = Seq::empty();
        let mut i: usize = 0;
        while i < NUM_TILES
            invariant
                i <= NUM_TILES,
                map.wf(),
                map.revealed_tiles == old(map).revealed_tiles,
                rolls.len() == i,
                forall|j: int|
                    0 <= j < i ==> 0 <= #[trigger] rolls[j] < 100 && map.tiles[j] == spec_noise_tile(
                        rolls[j],
                    ),
            decreases NUM_TILES - i,
        {
            let roll = range(rng, 0, 100);
            map.tiles.set(i, noise_tile(roll));
            proof {
                rolls = rolls.push(roll as int);
            }
            i = i + 1;
        }
        assert(seeded_by(map.tiles@, rolls));
    }

    /// The number of walls among the eight neighbours of `(x, y)`.
    pub fn count_neighbors(&self, x: i32, y: i32, map: &TileGrid) -> (neighbors: usize)
        requires
            map.wf(),
            interior(x as int, y as int),
        ensures
            neighbors == spec_count_neighbors(map.tiles@, x as int, y as int),
            neighbors <= 8,
    {
        let mut neighbors: usize = 0;
        let mut iy: i32 = -1;
        while iy <= 1
            invariant
                map.wf(),
                interior(x as int, y as int),
                -1 <= iy <= 2,
                neighbors <= (iy + 1) * 3,
                neighbors == walls_upto(map.tiles@, x as int, y as int, (iy + 1) * 3),
            decreases 2 - iy,
        {
            let mut ix: i32 = -1;
            while ix <= 1
                invariant
                    map.wf(),
                    interior(x as int, y as int),
                    -1 <= iy <= 1,
                    -1 <= ix <= 2,
                    neighbors <= (iy + 1) * 3 + (ix + 1),
                    neighbors == walls_upto(
                        map.tiles@,
                        x as int,
                        y as int,
                        (iy + 1) * 3 + (ix + 1),
                    ),
                decreases 2 - ix,
            {
                let ghost k = (iy + 1) * 3 + (ix + 1);
                assert(k % 3 - 1 == ix && k / 3 - 1 == iy);
                if !(ix == 0 && iy == 0) && map.tiles[map_idx(x + ix, y + iy)] == TileType::Wall {
                    neighbors += 1;
                }
                ix = ix + 1;
            }
            iy = iy + 1;
        }
        proof {
            assert(!wall_neighbor(map.tiles@, x as int, y as int, 4));
            lemma_walls_bound(map.tiles@, x as int, y as int, 9);
        }
        neighbors
    }

    /// One smoothing pass over the grid.
    pub fn iteration(&mut self, map: &mut TileGrid)
        requires
            old(map).wf(),
        ensures
            final(map).wf(),
            final(map).revealed_tiles == old(map).revealed_tiles,
            final(map).tiles@ == spec_smooth(old(map).tiles@),
    {
        let mut new_tiles = map.tiles.clone();
        assert(new_tiles@ =~= map.tiles@);
        let mut y: i32 = 1;
        while y < SCREEN_HEIGHT - 1
            invariant
                map.wf(),
                *map == *old(map),
                1 <= y <= SCREEN_HEIGHT - 1,
                new_tiles.len() == NUM_TILES,
                forall|i: int|
                    0 <= i < NUM_TILES ==> #[trigger] new_tiles[i] == (if spec_idx_point(i).y < y {
                        spec_smooth_tile(map.tiles@, i)
                    } else {
                        map.tiles[i]
                    }),
            decreases SCREEN_HEIGHT - y,
        {
            let mut x: i32 = 1;
            while x < SCREEN_WIDTH - 1
                invariant
                    map.wf(),
                    *map == *old(map),
                    1 <= y < SCREEN_HEIGHT - 1,
                    1 <= x <= SCREEN_WIDTH - 1,
                    new_tiles.len() == NUM_TILES,
                    forall|i: int|
                        0 <= i < NUM_TILES ==> #[trigger] new_tiles[i] == (if spec_idx_point(i).y
                            < y || (spec_idx_point(i).y == y && spec_idx_point(i).x < x) {
                            spec_smooth_tile(map.tiles@, i)
                        } else {
                            map.tiles[i]
                        }),
                decreases SCREEN_WIDTH - x,
            {
                let neighbors = self.count_neighbors(x, y, map);
                let idx = map_idx(x, y);
                if neighbors > 4 || neighbors == 0 {
                    new_tiles.set(idx, TileType::Wall);
                } else {
                    new_tiles.set(idx, TileType::Floor);
                }
                x = x + 1;
            }
            y = y + 1;
        }
        assert(new_tiles@ =~= spec_smooth(map.tiles@));
        map.tiles = new_tiles;
    }

    /// The floor tile nearest to the centre of the grid, the first in
    /// row-major order where several lie as near. There is none only where
    /// the grid holds no floor.
    pub fn find_start(&self, map: &TileGrid) -> (r: Option<Point>)
        requires
            map.wf(),
        ensures
            match r {
                Some(p) => TileGrid::spec_in_bounds(p) && is_nearest_floor(
                    map.tiles@,
                    spec_map_idx(p.x as int, p.y as int),
                ),
                None => forall|i: int|
                    0 <= i < NUM_TILES ==> #[trigger] map.tiles[i] != TileType::Floor,
            },
    {
        let mut closest: Option<usize> = None;
        let mut least: i32 = 0;
        let mut idx: usize = 0;
        while idx < NUM_TILES
            invariant
                map.wf(),
                idx <= NUM_TILES,
                match closest {
                    Some(best) => {
                        &&& best < idx
                        &&& map.tiles[best as int] == TileType::Floor
                        &&& least == center_distance(best as int)
                        &&& forall|j: int|
                            0 <= j < idx && #[trigger] map.tiles[j] == TileType::Floor
                                ==> center_distance(best as int) <= center_distance(j)
                        &&& forall|j: int|
                            0 <= j < best && #[trigger] map.tiles[j] == TileType::Floor
                                ==> center_distance(best as int) < center_distance(j)
                    },
                    None => forall|j: int| 0 <= j < idx ==> #[trigger] map.tiles[j] != TileType::Floor,
                },
            decreases NUM_TILES - idx,
        {
            if map.tiles[idx] == TileType::Floor {
                let distance = distance_to_center(map.index_to_point2d(idx));
                if closest.is_none() || distance < least {
                    closest = Some(idx);
                    least = distance;
                }
            }
            idx = idx + 1;
        }
        match closest {
            Some(best) => Some(map.index_to_point2d(best)),
            None => None,
        }
    }
}

/// At most `k` of the first `k` cells of a block count.
pub proof fn lemma_walls_bound(tiles: Seq<TileType>, x: int, y: int, k: int)
    requires
        0 <= k,
    ensures
        0 <= walls_upto(tiles, x, y, k) <= k,
        k > 4 ==> walls_upto(tiles, x, y, k) <= k - 1,
    decreases k,
{
    if k > 0 {
        lemma_walls_bound(tiles, x, y, k - 1);
    }
}

/// What the cave strategy makes: of some seeded noise, smoothed
/// `ITERATIONS` times, a level or the error that the smoothed grid calls
/// for. In a level the player starts on the first of the floor tiles
/// nearest to the centre, `NUM_MONSTERS` different floor tiles away from
/// the player are the spawn points, the amulet lies on the last of the
/// tiles furthest from the player, nothing is seen, and there are no rooms.
pub open spec fn cave_level(r: Result<MapBuilder, GenerationError>) -> bool {
    &&& exists|rolls: Seq<int>, noise: Seq<TileType>|
        #[trigger] seeded_by(noise, rolls) && grown_from(
            spec_smoothed(noise, ITERATIONS as nat),
            r,
        )
    &&& match r {
        Ok(mb) => {
            &&& mb.playable()
            &&& forall|i: int| 0 <= i < NUM_TILES ==> !#[trigger] mb.map.revealed_tiles[i]
            &&& mb.rooms@ == Seq::<Rect>::empty()
            &&& mb.theme == Theme::Dungeon
            &&& is_nearest_floor(mb.map.tiles@, mb.start_idx() as int)
            &&& mb.monster_spawns.len() == NUM_MONSTERS
            &&& mb.monster_spawns@.no_duplicates()
            &&& forall|k: int|
                0 <= k < mb.monster_spawns.len() ==> spawnable_tile(
                    mb.map.tiles@,
                    mb.player_start,
                    spec_map_idx(
                        (#[trigger] mb.monster_spawns[k]).x as int,
                        mb.monster_spawns[k].y as int,
                    ),
                )
            &&& is_most_distant(
                spec_distances(mb.map.tiles@, seq![mb.start_idx()], MAX_DEPTH as nat),
                mb.amulet_idx(),
            )
        },
        Err(e) => e == GenerationError::NoFloor || e == GenerationError::TooFewSpawnPoints,
    }
}

impl MapArchitect for CellularAutomataArchitect {
    /// Seeds the grid at random, smooths it `ITERATIONS` times, starts the
    /// player on the floor tile nearest to the centre and scatters
    /// `NUM_MONSTERS` monsters over the floor away from the player. Fails
    /// where the smoothed grid holds no floor or too few spawn points.
    fn new(&mut self, rng: &mut RandomNumberGenerator) -> (r: Result<MapBuilder, GenerationError>)
        ensures
            cave_level(r),
    {
        let mut mb = MapBuilder::blank();
        self.random_noise_map(rng, &mut mb.map);
        let ghost noise = mb.map.tiles@;
        let ghost rolls = choose|rolls: Seq<int>| #[trigger] seeded_by(noise, rolls);
        proof {
            assert forall|i: int| 0 <= i < noise.len() implies #[trigger] noise[i]
                != TileType::Exit by {
                assert(noise[i] == spec_noise_tile(rolls[i]));
            }
        }
        let mut pass: usize = 0;
        while pass < ITERATIONS
            invariant
                mb.map.wf(),
                mb.monster_spawns.len() == 0,
                mb.rooms@ == Seq::<Rect>::empty(),
                mb.theme == Theme::Dungeon,
                forall|i: int| 0 <= i < NUM_TILES ==> !#[trigger] mb.map.revealed_tiles[i],
                pass <= ITERATIONS,
                mb.map.tiles@ == spec_smoothed(noise, pass as nat),
                no_exit(mb.map.tiles@),
            decreases ITERATIONS - pass,
        {
            self.iteration(&mut mb.map);
            pass = pass + 1;
        }
        assert(seeded_by(noise, rolls));
        let ghost grown = mb.map.tiles@;
        let start = match self.find_start(&mb.map) {
            Some(p) => p,
            None => {
                assert(grown_from(grown, Err(GenerationError::NoFloor)));
                return Err(GenerationError::NoFloor);
            },
        };
        let spawns = match mb.spawn_monsters(&start, rng) {
            Ok(spawns) => spawns,
            Err(e) => {
                assert(is_nearest_floor(grown, spec_map_idx(start.x as int, start.y as int)));
                assert(grown_from(grown, Err(e)));
                return Err(e);
            },
        };
        mb.monster_spawns = spawns;
        mb.player_start = start;
        mb.amulet_start = mb.find_most_distant();
        Ok(mb)
    }
}

} // verus!
