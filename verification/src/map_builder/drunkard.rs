//! Tunnels dug by random walks.
//!
//! A walker starts in the centre of a grid of walls and staggers about,
//! turning every tile it stands on into floor, until it has made
//! `STAGGER_DISTANCE` steps or leaves the grid. Further walkers start at
//! random points until a third of the grid is floor. After each of them the
//! tiles that the centre does not reach are walled up again.

use vstd::prelude::*;
use bracket_random::prelude::RandomNumberGenerator;
use crate::distance::{
    is_distance, is_most_distant, lemma_reach_monotone, lemma_reach_on_grid, lemma_reach_unfold,
    lemma_source_distance, neighbor_within, reach_within, spec_distances, DistanceField,
};
use crate::geometry::{Point, Rect};
use crate::map_builder::themes::Theme;
use crate::map::{
    spec_map_idx, spec_step, TileGrid, TileType, NUM_TILES, SCREEN_HEIGHT, SCREEN_WIDTH,
};
use crate::map_builder::{
    no_exit, spawnable_count, spawnable_tile, GenerationError, MapArchitect, MapBuilder,
    MAX_DEPTH, NUM_MONSTERS,
};
use crate::rng::range;

verus! {

/// The number of steps after which a walker stops.
pub const STAGGER_DISTANCE: usize = 400;

/// The number of floor tiles at which the digging stops: a third of the grid.
pub const DESIRED_FLOOR: usize = 1333;

/// The number of walkers after which the digging gives up.
pub const MAX_WALKS: usize = 10000;

pub struct DrunkardsWalkArchitect {}

/// Where a walker at `pos` stands after the step that `roll` picks: 0 leads
/// left, 1 right, 2 up and any other roll down.
pub open spec fn spec_stagger(pos: Point, roll: int) -> Point {
    if roll == 0 {
        Point { x: (pos.x - 1) as i32, y: pos.y }
    } else if roll == 1 {
        Point { x: (pos.x + 1) as i32, y: pos.y }
    } else if roll == 2 {
        Point { x: pos.x, y: (pos.y - 1) as i32 }
    } else {
        Point { x: pos.x, y: (pos.y + 1) as i32 }
    }
}

pub fn stagger(pos: Point, roll: i32) -> (next: Point)
    requires
        TileGrid::spec_in_bounds(pos),
    ensures
        next == spec_stagger(pos, roll as int),
{
    let mut next = pos;
    match roll {
        0 => next.x -= 1,
        1 => next.x += 1,
        2 => next.y -= 1,
        _ => next.y += 1,
    }
    next
}

/// Where a walker from `start` stands after `k` steps.
pub open spec fn walk_pos(start: Point, rolls: Seq<int>, k: int) -> Point
    decreases k,
{
    if k <= 0 {
        start
    } else {
        spec_stagger(walk_pos(start, rolls, k - 1), rolls[k - 1])
    }
}

/// The tiles once a walker from `start` has turned into floor where it
/// stood before each of its first `k` steps.
pub open spec fn spec_dug(tiles: Seq<TileType>, start: Point, rolls: Seq<int>, k: int) -> Seq<
    TileType,
>
    decreases k,
{
    if k <= 0 {
        tiles
    } else {
        let pos = walk_pos(start, rolls, k - 1);
        spec_dug(tiles, start, rolls, k - 1).update(
            spec_map_idx(pos.x as int, pos.y as int),
            TileType::Floor,
        )
    }
}

/// Whether the rolls make a whole walk from `start`: a roll of a
/// four-sided die for each step, every step but the last from a tile of
/// the grid onto one, and the last step either off the grid or the one
/// behind `STAGGER_DISTANCE` others.
pub open spec fn is_walk(start: Point, rolls: Seq<int>) -> bool {
    &&& 1 <= rolls.len() <= STAGGER_DISTANCE + 1
    &&& forall|k: int|
        0 <= k < rolls.len() ==> 0 <= #[trigger] rolls[k] < 4 && TileGrid::spec_in_bounds(
            walk_pos(start, rolls, k),
        )
    &&& rolls.len() == STAGGER_DISTANCE + 1 || !TileGrid::spec_in_bounds(
        walk_pos(start, rolls, rolls.len() as int),
    )
}

/// The first `k` steps of a walk do not depend on the rolls behind them.
pub proof fn lemma_walk_same_rolls(
    tiles: Seq<TileType>,
    start: Point,
    a: Seq<int>,
    b: Seq<int>,
    k: int,
)
    requires
        k <= a.len() <= b.len(),
        forall|j: int| 0 <= j < k ==> a[j] == b[j],
    ensures
        walk_pos(start, a, k) == walk_pos(start, b, k),
        spec_dug(tiles, start, a, k) == spec_dug(tiles, start, b, k),
    decreases k,
{
    if k > 0 {
        lemma_walk_same_rolls(tiles, start, a, b, k - 1);
    }
}

/// A walk lays nothing but floor, and lays it where it starts.
pub proof fn lemma_dug_only_floor(tiles: Seq<TileType>, start: Point, rolls: Seq<int>, k: int, i: int)
    requires
        tiles.len() == NUM_TILES,
        0 <= i < NUM_TILES,
        0 <= k <= rolls.len(),
        forall|j: int|
            0 <= j < k ==> 0 <= #[trigger] rolls[j] < 4 && TileGrid::spec_in_bounds(
                walk_pos(start, rolls, j),
            ),
    ensures
        spec_dug(tiles, start, rolls, k).len() == NUM_TILES,
        spec_dug(tiles, start, rolls, k)[i] == tiles[i] || spec_dug(tiles, start, rolls, k)[i]
            == TileType::Floor,
        k >= 1 && i == spec_map_idx(start.x as int, start.y as int) ==> spec_dug(
            tiles,
            start,
            rolls,
            k,
        )[i] == TileType::Floor,
    decreases k,
{
    if k > 0 {
        lemma_dug_only_floor(tiles, start, rolls, k - 1, i);
        assert(0 <= rolls[k - 1] < 4);
        assert(TileGrid::spec_in_bounds(walk_pos(start, rolls, k - 1)));
    }
}

/// The number of floor tiles among the first `n` tiles.
pub open spec fn floor_count(tiles: Seq<TileType>, n: int) -> int
    decreases n,
{
    if n <= 0 {
        0
    } else {
        floor_count(tiles, n - 1) + if tiles[n - 1] == TileType::Floor {
            1int
        } else {
            0int
        }
    }
}

/// The number of floor tiles of the grid.
pub fn count_floor(map: &TileGrid) -> (n: usize)
    requires
        map.wf(),
    ensures
        n == floor_count(map.tiles@, NUM_TILES as int),
        n <= NUM_TILES,
{
    let mut n: usize = 0;
    let mut i: usize = 0;
    while i < NUM_TILES
        invariant
            map.wf(),
            i <= NUM_TILES,
            n <= i,
            n == floor_count(map.tiles@, i as int),
        decreases NUM_TILES - i,
    {
        if map.tiles[i] == TileType::Floor {
            n = n + 1;
        }
        i = i + 1;
    }
    n
}

/// The tiles after those that `field` does not reach are walled up.
pub open spec fn spec_pruned(tiles: Seq<TileType>, dist: Seq<Option<u32>>) -> Seq<TileType> {
    Seq::new(
        NUM_TILES as nat,
        |i: int|
            if dist[i].is_none() {
                TileType::Wall
            } else {
                tiles[i]
            },
    )
}

/// Walls up every tile that `field` does not reach.
pub fn prune_unreachable(map: &mut TileGrid, field: &DistanceField)
    requires
        old(map).wf(),
        field.wf(),
    ensures
        final(map).wf(),
        final(map).revealed_tiles == old(map).revealed_tiles,
        final(map).tiles@ == spec_pruned(old(map).tiles@, field.map@),
{
    let mut i: usize = 0;
    while i < NUM_TILES
        invariant
            map.wf(),
            field.wf(),
            i <= NUM_TILES,
            map.revealed_tiles == old(map).revealed_tiles,
            forall|j: int|
                0 <= j < NUM_TILES ==> #[trigger] map.tiles[j] == (if j < i && field.map[j].is_none() {
                    TileType::Wall
                } else {
                    old(map).tiles[j]
                }),
        decreases NUM_TILES - i,
    {
        if field.map[i].is_none() {
            map.tiles.set(i, TileType::Wall);
        }
        i = i + 1;
    }
    assert(map.tiles@ =~= spec_pruned(old(map).tiles@, field.map@));
}

/// Whether every tile that holds no wall lies within reach of `source`.
pub open spec fn connected(tiles: Seq<TileType>, source: usize) -> bool {
    forall|i: int|
        0 <= i < NUM_TILES && #[trigger] tiles[i] != TileType::Wall ==> reach_within(
            tiles,
            seq![source],
            i,
            MAX_DEPTH as nat,
        )
}

/// Walling up what is out of reach takes nothing out of reach that was within it.
pub proof fn lemma_prune_keeps_reach(
    tiles: Seq<TileType>,
    sources: Seq<usize>,
    dist: Seq<Option<u32>>,
    idx: int,
    n: nat,
)
    requires
        tiles.len() == NUM_TILES,
        dist.len() == NUM_TILES,
        forall|t: int|
            0 <= t < NUM_TILES ==> is_distance(tiles, sources, MAX_DEPTH as nat, t, #[trigger] dist[t]),
        n <= MAX_DEPTH,
        reach_within(tiles, sources, idx, n),
    ensures
        reach_within(spec_pruned(tiles, dist), sources, idx, n),
    decreases n,
{
    let pruned = spec_pruned(tiles, dist);
    lemma_reach_on_grid(tiles, sources, idx, n);
    if n > 0 {
        let m = (n - 1) as nat;
        lemma_reach_unfold(tiles, sources, idx, m);
        lemma_reach_unfold(pruned, sources, idx, m);
        if reach_within(tiles, sources, idx, m) {
            lemma_prune_keeps_reach(tiles, sources, dist, idx, m);
        } else {
            let dir = choose|dir: int|
                0 <= dir < 4 && #[trigger] neighbor_within(tiles, sources, idx, dir, m);
            lemma_prune_keeps_reach(tiles, sources, dist, spec_step(idx, dir).unwrap(), m);
            assert(neighbor_within(pruned, sources, idx, dir, m));
            assert(is_distance(tiles, sources, MAX_DEPTH as nat, idx, dist[idx]));
            if dist[idx].is_none() {
                lemma_reach_monotone(tiles, sources, idx, n, MAX_DEPTH as nat);
            }
            assert(pruned[idx] == tiles[idx]);
        }
    }
}

/// Once what is out of reach is walled up, every tile without a wall is within reach.
pub proof fn lemma_pruned_is_connected(tiles: Seq<TileType>, source: usize, dist: Seq<Option<u32>>)
    requires
        tiles.len() == NUM_TILES,
        dist.len() == NUM_TILES,
        forall|t: int|
            0 <= t < NUM_TILES ==> is_distance(
                tiles,
                seq![source],
                MAX_DEPTH as nat,
                t,
                #[trigger] dist[t],
            ),
    ensures
        connected(spec_pruned(tiles, dist), source),
{
    let pruned = spec_pruned(tiles, dist);
    assert forall|i: int|
        0 <= i < NUM_TILES && #[trigger] pruned[i] != TileType::Wall implies reach_within(
        pruned,
        seq![source],
        i,
        MAX_DEPTH as nat,
    ) by {
        assert(is_distance(tiles, seq![source], MAX_DEPTH as nat, i, dist[i]));
        let k = dist[i].unwrap();
        lemma_prune_keeps_reach(tiles, seq![source], dist, i, k as nat);
        lemma_reach_monotone(pruned, seq![source], i, k as nat, MAX_DEPTH as nat);
    }
}

/// Turning one tile into floor adds one floor tile at most.
pub proof fn lemma_floor_count_update(tiles: Seq<TileType>, at: int, n: int)
    requires
        0 <= n <= tiles.len(),
        0 <= at < tiles.len(),
    ensures
        floor_count(tiles.update(at, TileType::Floor), n) <= floor_count(tiles, n) + 1,
        at >= n ==> floor_count(tiles.update(at, TileType::Floor), n) == floor_count(tiles, n),
    decreases n,
{
    if n > 0 {
        lemma_floor_count_update(tiles, at, n - 1);
    }
}

/// A walk of `k` steps adds `k` floor tiles at most.
pub proof fn lemma_walk_floor_count(tiles: Seq<TileType>, start: Point, rolls: Seq<int>, k: int)
    requires
        tiles.len() == NUM_TILES,
        0 <= k <= rolls.len(),
        forall|j: int|
            0 <= j < k ==> 0 <= #[trigger] rolls[j] < 4 && TileGrid::spec_in_bounds(
                walk_pos(start, rolls, j),
            ),
    ensures
        spec_dug(tiles, start, rolls, k).len() == NUM_TILES,
        floor_count(spec_dug(tiles, start, rolls, k), NUM_TILES as int) <= floor_count(
            tiles,
            NUM_TILES as int,
        ) + k,
    decreases k,
{
    if k > 0 {
        lemma_walk_floor_count(tiles, start, rolls, k - 1);
        assert(0 <= rolls[k - 1] < 4);
        let pos = walk_pos(start, rolls, k - 1);
        lemma_floor_count_update(
            spec_dug(tiles, start, rolls, k - 1),
            spec_map_idx(pos.x as int, pos.y as int),
            NUM_TILES as int,
        );
    }
}

/// A grid of walls holds no floor.
pub proof fn lemma_walls_hold_no_floor(tiles: Seq<TileType>, n: int)
    requires
        0 <= n <= tiles.len(),
        forall|i: int| 0 <= i < n ==> tiles[i] == TileType::Wall,
    ensures
        floor_count(tiles, n) == 0,
    decreases n,
{
    if n > 0 {
        lemma_walls_hold_no_floor(tiles, n - 1);
    }
}

impl DrunkardsWalkArchitect {
    /// One walk from `start`: the tile under the walker becomes floor, then
    /// the walker makes a step as the roll falls, until it leaves the grid
    /// or has made more than `STAGGER_DISTANCE` steps. Nothing but floor is
    /// laid, and the tile at `start` is floor afterwards.
    pub fn drunkard(&mut self, start: &Point, rng: &mut RandomNumberGenerator, map: &mut TileGrid)
        requires
            old(map).wf(),
            TileGrid::spec_in_bounds(*start),
        ensures
            final(map).wf(),
            final(map).revealed_tiles == old(map).revealed_tiles,
            exists|rolls: Seq<int>|
                is_walk(*start, rolls) && final(map).tiles@ == #[trigger] spec_dug(
                    old(map).tiles@,
                    *start,
                    rolls,
                    rolls.len() as int,
                ),
            final(map).tile_at(*start) == TileType::Floor,
            forall|i: int|
                0 <= i < NUM_TILES ==> (#[trigger] final(map).tiles[i] == old(map).tiles[i]
                    || final(map).tiles[i] == TileType::Floor),
    {
        let mut drunkard_pos = *start;
        let mut distance_staggered: usize = 0;
        let ghost mut rolls: Seq<int> = Seq::empty();
        loop
            invariant_except_break
                distance_staggered <= STAGGER_DISTANCE,
                rolls.len() == distance_staggered,
                drunkard_pos == walk_pos(*start, rolls, distance_staggered as int),
                map.tiles@ == spec_dug(old(map).tiles@, *start, rolls, distance_staggered as int),
                forall|k: int|
                    0 <= k < rolls.len() ==> 0 <= #[trigger] rolls[k] < 4
                        && TileGrid::spec_in_bounds(walk_pos(*start, rolls, k)),
            invariant
                map.wf(),
                old(map).wf(),
                map.revealed_tiles == old(map).revealed_tiles,
                TileGrid::spec_in_bounds(*start),
                TileGrid::spec_in_bounds(drunkard_pos),
            ensures
                is_walk(*start, rolls),
                map.tiles@ == spec_dug(old(map).tiles@, *start, rolls, rolls.len() as int),
            decreases STAGGER_DISTANCE - distance_staggered,
        {
            let drunk_idx = map.point2d_to_index(drunkard_pos);
            map.tiles.set(drunk_idx, TileType::Floor);
            let roll = range(rng, 0, 4);
            let next = stagger(drunkard_pos, roll);
            proof {
                let longer = rolls.push(roll as int);
                lemma_walk_same_rolls(
                    old(map).tiles@,
                    *start,
                    rolls,
                    longer,
                    distance_staggered as int,
                );
                assert forall|k: int| 0 <= k < longer.len() implies 0 <= #[trigger] longer[k] < 4
                    && TileGrid::spec_in_bounds(walk_pos(*start, longer, k)) by {
                    if k < rolls.len() {
                        lemma_walk_same_rolls(old(map).tiles@, *start, rolls, longer, k);
                        assert(longer[k] == rolls[k]);
                    }
                }
                rolls = longer;
                assert(next == walk_pos(*start, rolls, rolls.len() as int));
            }
            if !map.in_bounds(next) {
                break ;
            }
            drunkard_pos = next;
            distance_staggered += 1;
            if distance_staggered > STAGGER_DISTANCE {
                break ;
            }
        }
        proof {
            assert forall|i: int| 0 <= i < NUM_TILES implies (#[trigger] map.tiles[i]
                == old(map).tiles[i] || map.tiles[i] == TileType::Floor) by {
                lemma_dug_only_floor(old(map).tiles@, *start, rolls, rolls.len() as int, i);
            }
            lemma_dug_only_floor(
                old(map).tiles@,
                *start,
                rolls,
                rolls.len() as int,
                spec_map_idx(start.x as int, start.y as int),
            );
        }
    }
}

/// A further walk: where it starts, and the rolls that it follows.
pub ghost struct Walk {
    pub start: Point,
    pub rolls: Seq<int>,
}

/// A grid of walls.
pub open spec fn all_walls() -> Seq<TileType> {
    Seq::new(NUM_TILES as nat, |i: int| TileType::Wall)
}

/// The centre of the grid, where the first walk starts.
pub open spec fn spec_center() -> Point {
    Point { x: 40, y: 25 }
}

/// The tiles after a further walk: the walk is dug, and what the centre
/// does not reach then is walled up.
pub open spec fn spec_round(tiles: Seq<TileType>, walk: Walk) -> Seq<TileType> {
    let dug = spec_dug(tiles, walk.start, walk.rolls, walk.rolls.len() as int);
    spec_pruned(dug, spec_distances(dug, seq![2040usize], MAX_DEPTH as nat))
}

/// The tiles after the first walk from the centre and the first `n` further walks.
pub open spec fn spec_walked(first: Seq<int>, walks: Seq<Walk>, n: int) -> Seq<TileType>
    decreases n,
{
    if n <= 0 {
        spec_dug(all_walls(), spec_center(), first, first.len() as int)
    } else {
        spec_round(spec_walked(first, walks, n - 1), walks[n - 1])
    }
}

/// Whether the walks are a whole digging: each is a whole walk from a
/// tile of the grid, there are `MAX_WALKS` further walks at most, and
/// before each further walk fewer than `DESIRED_FLOOR` tiles were floor.
pub open spec fn whole_digging(first: Seq<int>, walks: Seq<Walk>) -> bool {
    &&& is_walk(spec_center(), first)
    &&& walks.len() <= MAX_WALKS
    &&& forall|k: int|
        0 <= k < walks.len() ==> TileGrid::spec_in_bounds((#[trigger] walks[k]).start) && is_walk(
            walks[k].start,
            walks[k].rolls,
        )
    &&& forall|k: int|
        0 <= k < walks.len() ==> floor_count(
            #[trigger] spec_walked(first, walks, k),
            NUM_TILES as int,
        ) < DESIRED_FLOOR
}

/// What the random walk strategy makes of the walks that it drew: a level
/// on the tiles that the walks leave, where enough of them are floor and
/// enough floor lies away from the centre for the monsters to spawn on;
/// the one error where `MAX_WALKS` further walks left too little floor,
/// and the other where too little floor lies away from the centre.
pub open spec fn dug_from(
    r: Result<MapBuilder, GenerationError>,
    first: Seq<int>,
    walks: Seq<Walk>,
) -> bool {
    let tiles = spec_walked(first, walks, walks.len() as int);
    let floor = floor_count(tiles, NUM_TILES as int);
    let room = spawnable_count(tiles, spec_center(), NUM_TILES as int);
    &&& whole_digging(first, walks)
    &&& match r {
        Ok(mb) => mb.map.tiles@ == tiles && floor >= DESIRED_FLOOR && room >= NUM_MONSTERS,
        Err(GenerationError::WalksExhausted) => walks.len() == MAX_WALKS && floor < DESIRED_FLOOR,
        Err(GenerationError::TooFewSpawnPoints) => floor >= DESIRED_FLOOR && room < NUM_MONSTERS,
        Err(_) => false,
    }
}

/// The first `n` further walks leave the same tiles whatever walks come behind them.
pub proof fn lemma_walked_same(first: Seq<int>, a: Seq<Walk>, b: Seq<Walk>, n: int)
    requires
        n <= a.len() <= b.len(),
        forall|k: int| 0 <= k < n ==> a[k] == b[k],
    ensures
        spec_walked(first, a, n) == spec_walked(first, b, n),
    decreases n,
{
    if n > 0 {
        lemma_walked_same(first, a, b, n - 1);
    }
}

/// What the random walk strategy makes: for some walks what `dug_from`
/// says. In a level the player starts in the centre, every tile without a
/// wall is within reach of the player, `NUM_MONSTERS` different floor
/// tiles away from the player are the spawn points, the amulet lies on
/// the last of the tiles furthest from the player, nothing is seen, and
/// there are no rooms.
pub open spec fn dug_level(r: Result<MapBuilder, GenerationError>) -> bool {
    &&& exists|first: Seq<int>, walks: Seq<Walk>| #[trigger] dug_from(r, first, walks)
    &&& match r {
        Ok(mb) => {
            &&& mb.playable()
            &&& forall|i: int| 0 <= i < NUM_TILES ==> !#[trigger] mb.map.revealed_tiles[i]
            &&& mb.rooms@ == Seq::<Rect>::empty()
            &&& mb.theme == Theme::Dungeon
            &&& mb.player_start == (Point { x: 40, y: 25 })
            &&& floor_count(mb.map.tiles@, NUM_TILES as int) >= DESIRED_FLOOR
            &&& connected(mb.map.tiles@, mb.start_idx())
            &&& mb.monster_spawns.len() == NUM_MONSTERS
            &&& mb.monster_spawns@.no_duplicates()
            &&& forall|k: int|
                0 <= k < mb.monster_spawns.len() ==> spawnable_tile(
                    mb.map.tiles@,
                    mb.player_start,
                    spec_map_idx(
                        (#[trigger] mb.monster_spawns[k]).x as int,
                        mb.monster_spawns[k].y as int,
                    ),
                )
            &&& is_most_distant(
                spec_distances(mb.map.tiles@, seq![mb.start_idx()], MAX_DEPTH as nat),
                mb.amulet_idx(),
            )
        },
        Err(e) => e == GenerationError::WalksExhausted || e == GenerationError::TooFewSpawnPoints,
    }
}

impl MapArchitect for DrunkardsWalkArchitect {
    /// Digs from the centre, then from random points until `DESIRED_FLOOR`
    /// tiles are floor, walling up after each further walk what the centre
    /// does not reach. The player starts in the centre, and `NUM_MONSTERS`
    /// monsters are scattered over the floor away from it. Fails where the
    /// walkers run out or too few tiles qualify as spawn points.
    fn new(&mut self, rng: &mut RandomNumberGenerator) -> (r: Result<MapBuilder, GenerationError>)
        ensures
            dug_level(r),
    {
        let mut mb = MapBuilder::blank();
        mb.fill(TileType::Wall);
        let center = Point::new(SCREEN_WIDTH / 2, SCREEN_HEIGHT / 2);
        let ghost walls = mb.map.tiles@;
        assert(walls =~= all_walls());
        self.drunkard(&center, rng, &mut mb.map);
        let ghost first = choose|rolls: Seq<int>|
            is_walk(center, rolls) && mb.map.tiles@ == #[trigger] spec_dug(
                walls,
                center,
                rolls,
                rolls.len() as int,
            );
        proof {
            lemma_walls_hold_no_floor(walls, NUM_TILES as int);
            lemma_walk_floor_count(walls, center, first, first.len() as int);
        }
        let ghost mut drawn: Seq<Walk> = Seq::empty();
        let mut walks: usize = 0;
        let mut floor = count_floor(&mb.map);
        while floor < DESIRED_FLOOR && walks < MAX_WALKS
            invariant
                mb.map.wf(),
                mb.monster_spawns.len() == 0,
                mb.rooms@ == Seq::<Rect>::empty(),
                mb.theme == Theme::Dungeon,
                forall|i: int| 0 <= i < NUM_TILES ==> !#[trigger] mb.map.revealed_tiles[i],
                center == (Point { x: 40, y: 25 }),
                mb.map.tile_at(center) == TileType::Floor,
                floor == floor_count(mb.map.tiles@, NUM_TILES as int),
                walks == 0 ==> floor <= STAGGER_DISTANCE + 1,
                walks > 0 ==> connected(mb.map.tiles@, 2040),
                walks <= MAX_WALKS,
                drawn.len() == walks,
                no_exit(mb.map.tiles@),
                whole_digging(first, drawn),
                mb.map.tiles@ == spec_walked(first, drawn, walks as int),
            decreases MAX_WALKS - walks,
        {
            let ghost before = mb.map.tiles@;
            let x = range(rng, 0, SCREEN_WIDTH);
            let y = range(rng, 0, SCREEN_HEIGHT);
            let from = Point::new(x, y);
            self.drunkard(&from, rng, &mut mb.map);
            let ghost rolls = choose|rolls: Seq<int>|
                is_walk(from, rolls) && mb.map.tiles@ == #[trigger] spec_dug(
                    before,
                    from,
                    rolls,
                    rolls.len() as int,
                );
            let source = mb.map.point2d_to_index(center);
            let mut starts: Vec<usize> = Vec::new();
            starts.push(source);
            let field = DistanceField::new(&starts, &mb.map, MAX_DEPTH);
            proof {
                assert(is_distance(
                    mb.map.tiles@,
                    starts@,
                    MAX_DEPTH as nat,
                    source as int,
                    field.map[source as int],
                ));
                lemma_source_distance(
                    mb.map.tiles@,
                    starts@,
                    MAX_DEPTH as nat,
                    0,
                    field.map[source as int],
                );
            }
            let ghost dug = mb.map.tiles@;
            prune_unreachable(&mut mb.map, &field);
            proof {
                assert(starts@ =~= seq![2040usize]);
                lemma_pruned_is_connected(dug, 2040, field.map@);
                let walk = Walk { start: from, rolls };
                let longer = drawn.push(walk);
                assert(longer[walks as int] == walk);
                assert forall|k: int| 0 <= k < longer.len() implies TileGrid::spec_in_bounds(
                    (#[trigger] longer[k]).start,
                ) && is_walk(longer[k].start, longer[k].rolls) by {
                    if k < drawn.len() {
                        assert(longer[k] == drawn[k]);
                    }
                }
                assert forall|k: int| 0 <= k < longer.len() implies floor_count(
                    #[trigger] spec_walked(first, longer, k),
                    NUM_TILES as int,
                ) < DESIRED_FLOOR by {
                    lemma_walked_same(first, drawn, longer, k);
                    if k < drawn.len() {
                        assert(floor_count(spec_walked(first, drawn, k), NUM_TILES as int)
                            < DESIRED_FLOOR);
                    }
                }
                lemma_walked_same(first, drawn, longer, walks as int);
                assert(mb.map.tiles@ == spec_round(before, walk));
                drawn = longer;
            }
            floor = count_floor(&mb.map);
            walks = walks + 1;
        }
        if floor < DESIRED_FLOOR {
            assert(dug_from(Err(GenerationError::WalksExhausted), first, drawn));
            return Err(GenerationError::WalksExhausted);
        }
        let spawns = match mb.spawn_monsters(&center, rng) {
            Ok(spawns) => spawns,
            Err(e) => {
                assert(dug_from(Err(e), first, drawn));
                return Err(e);
            },
        };
        mb.monster_spawns = spawns;
        mb.player_start = center;
        mb.amulet_start = mb.find_most_distant();
        assert(dug_from(Ok(mb), first, drawn));
        Ok(mb)
    }
}

} // verus!
