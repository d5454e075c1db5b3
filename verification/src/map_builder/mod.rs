//! Level generation: the builder that the strategies fill in, and the steps
//! that several of them share.

use vstd::prelude::*;
use bracket_random::prelude::RandomNumberGenerator;
use crate::distance::{
    is_distance, is_most_distant, lemma_reach_monotone, lemma_reach_same_walls,
    lemma_reached_is_open, lemma_source_distance, reach_within, spec_distances, DistanceField,
};
use crate::geometry::{Point, Rect};
use crate::map::{
    enterable, map_idx, spec_idx_point, spec_map_idx, TileGrid, TileType, NUM_TILES, SCREEN_HEIGHT,
    SCREEN_WIDTH,
};
use crate::rng::{random_slice_index, range};

pub mod automata;
pub mod corridors;
pub mod drunkard;
pub mod empty;
pub mod prefab;
pub mod rooms;
pub mod themes;

verus! {

/// The number of rooms that the rooms strategy places.
pub const NUM_ROOMS: usize = 20;

/// The number of steps beyond which a tile counts as out of reach.
pub const MAX_DEPTH: u32 = 1024;

/// The number of monsters that the scattering strategies place.
pub const NUM_MONSTERS: usize = 50;

/// The number of candidate rooms that are drawn before room placement gives up.
pub const ROOM_ATTEMPTS: usize = 100000;

/// Why a level could not be generated.
#[derive(Clone, Copy, Debug, PartialEq, Eq, Structural)]
pub enum GenerationError {
    /// The candidate rooms ran out before enough rooms were placed.
    RoomsExhausted,
    /// The grid holds no floor tile to start on.
    NoFloor,
    /// Fewer tiles qualify as spawn points than there are monsters to place.
    TooFewSpawnPoints,
    /// The walks ran out before enough floor was carved.
    WalksExhausted,
}

/// A strategy that generates a level.
pub trait MapArchitect {
    /// Generates a level from the draws of `rng`. A level that comes back
    /// is playable whatever was drawn.
    fn new(&mut self, rng: &mut RandomNumberGenerator) -> (r: Result<MapBuilder, GenerationError>)
        ensures
            r matches Ok(mb) ==> mb.playable(),
    ;
}

/// The strategies by which a level is generated.
#[derive(Clone, Copy, Debug, PartialEq, Eq, Structural)]
pub enum Architect {
    Empty,
    Rooms,
    CellularAutomata,
    DrunkardsWalk,
}

impl Architect {
    /// The strategy that a roll picks: random walks for 0, rooms for 1 and caves else.
    pub open spec fn spec_pick(roll: int) -> Architect {
        if roll == 0 {
            Architect::DrunkardsWalk
        } else if roll == 1 {
            Architect::Rooms
        } else {
            Architect::CellularAutomata
        }
    }

    /// What the strategy makes, whatever it draws: a level of its kind, or
    /// one of its errors.
    pub open spec fn makes(self, r: Result<MapBuilder, GenerationError>) -> bool {
        match self {
            Architect::Empty => empty::open_level(r),
            Architect::Rooms => rooms::rooms_level(r),
            Architect::CellularAutomata => automata::cave_level(r),
            Architect::DrunkardsWalk => drunkard::dug_level(r),
        }
    }

    /// The strategy that a roll picks: random walks for 0, rooms for 1 and caves else.
    pub fn pick(roll: i32) -> (architect: Architect)
        ensures
            architect == Self::spec_pick(roll as int),
    {
        match roll {
            0 => Architect::DrunkardsWalk,
            1 => Architect::Rooms,
            _ => Architect::CellularAutomata,
        }
    }

    /// Generates a level by this strategy.
    pub fn build(self, rng: &mut RandomNumberGenerator) -> (r: Result<MapBuilder, GenerationError>)
        ensures
            self.makes(r),
            r matches Ok(mb) ==> mb.playable(),
            self == Architect::Empty ==> r.is_ok(),
    {
        match self {
            Architect::Empty => {
                let mut architect = empty::EmptyArchitect {  };
                architect.new(rng)
            },
            Architect::Rooms => {
                let mut architect = rooms::RoomsArchitect {  };
                architect.new(rng)
            },
            Architect::CellularAutomata => {
                let mut architect = automata::CellularAutomataArchitect {  };
                architect.new(rng)
            },
            Architect::DrunkardsWalk => {
                let mut architect = drunkard::DrunkardsWalkArchitect {  };
                architect.new(rng)
            },
        }
    }
}

/// Whether `mb` is the level `base` with the vault put where one of the
/// places drawn took it, and in the theme that the roll picks: the rooms,
/// the start, the amulet and what was seen are those of `base`, and the
/// tiles and the spawn points are what the prefab made of the places.
pub open spec fn furnished(
    base: &MapBuilder,
    mb: &MapBuilder,
    places: Seq<Point>,
    theme_roll: int,
) -> bool {
    &&& mb.map.revealed_tiles@ == base.map.revealed_tiles@
    &&& mb.rooms@ == base.rooms@
    &&& mb.player_start == base.player_start
    &&& mb.amulet_start == base.amulet_start
    &&& prefab::prefab_outcome(base, mb, places)
    &&& 0 <= theme_roll < 2
    &&& mb.theme == themes::Theme::spec_pick(theme_roll)
}

/// Whether `r` is what generation makes of what it drew: of the roll that
/// picks the strategy, of what that strategy made, and, where that is a
/// level, of the places drawn for the vault and the roll that picks the
/// theme. An error of the strategy is the error of the generation.
pub open spec fn generated_from(
    r: Result<MapBuilder, GenerationError>,
    roll: int,
    base: Result<MapBuilder, GenerationError>,
    places: Seq<Point>,
    theme_roll: int,
) -> bool {
    &&& 0 <= roll < 3
    &&& Architect::spec_pick(roll).makes(base)
    &&& match base {
        Ok(b) => r matches Ok(mb) && furnished(&b, &mb, places, theme_roll),
        Err(e) => r matches Err(f) && f == e,
    }
}

/// Whether `r` is what generation makes of some draws. A level that it
/// makes is playable.
pub open spec fn generated(r: Result<MapBuilder, GenerationError>) -> bool {
    &&& exists|
        roll: int,
        base: Result<MapBuilder, GenerationError>,
        places: Seq<Point>,
        theme_roll: int,
    | #[trigger] generated_from(r, roll, base, places, theme_roll)
    &&& r matches Ok(mb) ==> mb.playable()
}

/// Generates the level that follows from `seed`: what generation makes
/// of the draws of the generator that the seed gives.
pub fn generate(seed: u64) -> (r: Result<MapBuilder, GenerationError>)
    ensures
        generated(r),
        r matches Ok(mb) ==> mb.playable(),
{
    let mut rng = RandomNumberGenerator::seeded(seed);
    MapBuilder::new(&mut rng)
}

pub struct MapBuilder {
    pub map: TileGrid,
    pub rooms: Vec<Rect>,
    pub monster_spawns: Vec<Point>,
    pub player_start: Point,
    pub amulet_start: Point,
    pub theme: themes::Theme,
}

/// Whether the point of tile `idx` lies in column `x` between the rows `y1` and `y2`.
pub open spec fn on_vertical(idx: int, y1: int, y2: int, x: int) -> bool {
    let p = spec_idx_point(idx);
    p.x == x && ((y1 <= p.y <= y2) || (y2 <= p.y <= y1))
}

/// Whether the point of tile `idx` lies in row `y` between the columns `x1` and `x2`.
pub open spec fn on_horizontal(idx: int, x1: int, x2: int, y: int) -> bool {
    let p = spec_idx_point(idx);
    p.y == y && ((x1 <= p.x <= x2) || (x2 <= p.x <= x1))
}

/// Whether the point of tile `idx` lies in column `x` in the rows from `lo` to `hi`.
pub open spec fn in_column(idx: int, lo: int, hi: int, x: int) -> bool {
    let p = spec_idx_point(idx);
    p.x == x && lo <= p.y <= hi
}

/// Whether the point of tile `idx` lies in row `y` in the columns from `lo` to `hi`.
pub open spec fn in_row(idx: int, lo: int, hi: int, y: int) -> bool {
    let p = spec_idx_point(idx);
    p.y == y && lo <= p.x <= hi
}

/// The tiles after a vertical tunnel is dug.
pub open spec fn spec_vertical_tunnel(tiles: Seq<TileType>, y1: int, y2: int, x: int) -> Seq<
    TileType,
> {
    Seq::new(
        NUM_TILES as nat,
        |i: int|
            if on_vertical(i, y1, y2, x) {
                TileType::Floor
            } else {
                tiles[i]
            },
    )
}

/// The tiles after a horizontal tunnel is dug.
pub open spec fn spec_horizontal_tunnel(tiles: Seq<TileType>, x1: int, x2: int, y: int) -> Seq<
    TileType,
> {
    Seq::new(
        NUM_TILES as nat,
        |i: int|
            if on_horizontal(i, x1, x2, y) {
                TileType::Floor
            } else {
                tiles[i]
            },
    )
}

/// The tiles after an L-shaped corridor is dug between `prev` and `new`:
/// along the row of `prev` and the column of `new` when `horizontal_first`,
/// else along the column of `prev` and the row of `new`.
pub open spec fn spec_corridor(
    tiles: Seq<TileType>,
    prev: Point,
    new: Point,
    horizontal_first: bool,
) -> Seq<TileType> {
    if horizontal_first {
        spec_vertical_tunnel(
            spec_horizontal_tunnel(tiles, prev.x as int, new.x as int, prev.y as int),
            prev.y as int,
            new.y as int,
            new.x as int,
        )
    } else {
        spec_horizontal_tunnel(
            spec_vertical_tunnel(tiles, prev.y as int, new.y as int, prev.x as int),
            prev.x as int,
            new.x as int,
            new.y as int,
        )
    }
}

/// Whether a room is carved at the point of tile `idx`: the point lies in
/// the room and off the top and left edges of the grid.
pub open spec fn in_room(room: Rect, idx: int) -> bool {
    let p = spec_idx_point(idx);
    room.contains(p) && p.x > 0 && p.y > 0
}

/// The tiles after `room` is carved out.
pub open spec fn spec_carve_room(tiles: Seq<TileType>, room: Rect) -> Seq<TileType> {
    Seq::new(
        NUM_TILES as nat,
        |i: int|
            if in_room(room, i) {
                TileType::Floor
            } else {
                tiles[i]
            },
    )
}

/// Whether `room` intersects none of `rooms`.
pub open spec fn clear_of(rooms: Seq<Rect>, room: Rect) -> bool {
    forall|i: int| 0 <= i < rooms.len() ==> !(#[trigger] rooms[i]).spec_intersect(room)
}

/// Whether no two of `rooms` intersect.
pub open spec fn disjoint_rooms(rooms: Seq<Rect>) -> bool {
    forall|i: int, j: int|
        0 <= i < j < rooms.len() ==> !(#[trigger] rooms[i]).spec_intersect(#[trigger] rooms[j])
}

/// Whether a room lies on the grid within its outermost ring of tiles and
/// holds at least one point.
pub open spec fn room_fits(room: Rect) -> bool {
    1 <= room.x1 < room.x2 < SCREEN_WIDTH && 1 <= room.y1 < room.y2 < SCREEN_HEIGHT
}

/// Whether no tile is a way down.
pub open spec fn no_exit(tiles: Seq<TileType>) -> bool {
    forall|i: int| 0 <= i < tiles.len() ==> #[trigger] tiles[i] != TileType::Exit
}

/// Whether one of `rooms[from..]` is carved at tile `idx`.
pub open spec fn carved(rooms: Seq<Rect>, from: int, idx: int) -> bool {
    exists|k: int| from <= k < rooms.len() && in_room(#[trigger] rooms[k], idx)
}

/// The rooms that stand after the candidates were tried in order: a
/// candidate is placed when it intersects no room that stands.
pub open spec fn placed_rooms(rooms: Seq<Rect>, candidates: Seq<Rect>) -> Seq<Rect>
    decreases candidates.len(),
{
    if candidates.len() == 0 {
        rooms
    } else {
        let before = placed_rooms(rooms, candidates.drop_last());
        if clear_of(before, candidates.last()) {
            before.push(candidates.last())
        } else {
            before
        }
    }
}

/// The grid of walls with the rooms carved out.
pub open spec fn carved_grid(rooms: Seq<Rect>) -> Seq<TileType> {
    Seq::new(
        NUM_TILES as nat,
        |i: int|
            if carved(rooms, 0, i) {
                TileType::Floor
            } else {
                TileType::Wall
            },
    )
}

/// The rooms and the tiles that the rooms strategy makes of its draws:
/// the rooms are those of the candidates that found a place, and the tiles
/// are walls but for the rooms and the corridors that join them.
pub open spec fn rooms_layout(candidates: Seq<Rect>, flips: Seq<bool>) -> (Seq<Rect>, Seq<TileType>) {
    let rooms = placed_rooms(Seq::empty(), candidates);
    (rooms, spec_joined(carved_grid(rooms), sorted_by_x(room_centers(rooms)), flips))
}

/// Two levels that the rooms strategy makes of the same draws have the
/// same rooms and the same tiles.
pub proof fn lemma_same_draws_same_layout(
    a: &MapBuilder,
    b: &MapBuilder,
    candidates: Seq<Rect>,
    flips: Seq<bool>,
)
    requires
        (a.rooms@, a.map.tiles@) == rooms_layout(candidates, flips),
        (b.rooms@, b.map.tiles@) == rooms_layout(candidates, flips),
    ensures
        a.rooms@ == b.rooms@,
        a.map.tiles@ == b.map.tiles@,
{
}

/// Whether a room is one that the dice can draw: its corner off the edge
/// of the grid and at least ten tiles from the far edges, and its sides
/// from two to nine tiles long.
pub open spec fn room_drawn(room: Rect) -> bool {
    &&& 1 <= room.x1 < SCREEN_WIDTH - 10
    &&& 1 <= room.y1 < SCREEN_HEIGHT - 10
    &&& 2 <= room.x2 - room.x1 < 10
    &&& 2 <= room.y2 - room.y1 < 10
}

/// Whether the candidates are a whole drawing of rooms onto `rooms`: each
/// is a room that the dice can draw, none is drawn once `NUM_ROOMS` rooms
/// stand, and fewer rooms stand in the end only where `ROOM_ATTEMPTS`
/// candidates were drawn.
pub open spec fn drawn_out(rooms: Seq<Rect>, candidates: Seq<Rect>) -> bool {
    &&& candidates.len() <= ROOM_ATTEMPTS
    &&& forall|k: int| 0 <= k < candidates.len() ==> room_drawn(#[trigger] candidates[k])
    &&& candidates.len() > 0 ==> placed_rooms(rooms, candidates.drop_last()).len() < NUM_ROOMS
    &&& placed_rooms(rooms, candidates).len() < NUM_ROOMS ==> candidates.len() == ROOM_ATTEMPTS
}

/// Where a point with the key `x` goes into `sorted`: behind the last point
/// whose `x` is not greater.
pub open spec fn insert_pos(sorted: Seq<Point>, x: int) -> int
    decreases sorted.len(),
{
    if sorted.len() == 0 {
        0
    } else if sorted.last().x <= x {
        sorted.len() as int
    } else {
        insert_pos(sorted.drop_last(), x)
    }
}

/// The points in ascending order of `x`; points with the same `x` keep their order.
pub open spec fn sorted_by_x(points: Seq<Point>) -> Seq<Point>
    decreases points.len(),
{
    if points.len() == 0 {
        Seq::empty()
    } else {
        let before = sorted_by_x(points.drop_last());
        before.insert(insert_pos(before, points.last().x as int), points.last())
    }
}

/// The centres of the rooms, in the order of the rooms.
pub open spec fn room_centers(rooms: Seq<Rect>) -> Seq<Point> {
    Seq::new(rooms.len(), |i: int| rooms[i].spec_center())
}

/// The tiles after the first `n` corridors are dug: corridor `k` joins
/// `centers[k]` and `centers[k + 1]` and starts horizontally when `flips[k]`.
pub open spec fn spec_corridors(
    tiles: Seq<TileType>,
    centers: Seq<Point>,
    flips: Seq<bool>,
    n: int,
) -> Seq<TileType>
    decreases n,
{
    if n <= 0 {
        tiles
    } else {
        spec_corridor(
            spec_corridors(tiles, centers, flips, n - 1),
            centers[n - 1],
            centers[n],
            flips[n - 1],
        )
    }
}

/// The tiles after each of `centers` is joined to the next by a corridor.
pub open spec fn spec_joined(tiles: Seq<TileType>, centers: Seq<Point>, flips: Seq<bool>) -> Seq<
    TileType,
> {
    spec_corridors(tiles, centers, flips, centers.len() - 1)
}

/// Whether the tile `idx` qualifies as a spawn point: a floor tile more
/// than ten tiles away from `start` as the crow flies.
pub open spec fn spawnable_tile(tiles: Seq<TileType>, start: Point, idx: int) -> bool {
    tiles[idx] == TileType::Floor && start.distance_squared(spec_idx_point(idx)) > 100
}

/// The number of tiles among the first `n` that qualify as spawn points.
pub open spec fn spawnable_count(tiles: Seq<TileType>, start: Point, n: int) -> int
    decreases n,
{
    if n <= 0 {
        0
    } else {
        spawnable_count(tiles, start, n - 1) + if spawnable_tile(tiles, start, n - 1) {
            1int
        } else {
            0int
        }
    }
}

/// Digging a corridor turns tiles into floor and changes nothing else.
pub proof fn lemma_corridors_only_floor(
    tiles: Seq<TileType>,
    centers: Seq<Point>,
    flips: Seq<bool>,
    n: int,
    idx: int,
)
    requires
        tiles.len() == NUM_TILES,
        0 <= idx < NUM_TILES,
    ensures
        spec_corridors(tiles, centers, flips, n).len() == NUM_TILES,
        spec_corridors(tiles, centers, flips, n)[idx] == tiles[idx] || spec_corridors(
            tiles,
            centers,
            flips,
            n,
        )[idx] == TileType::Floor,
    decreases n,
{
    if n > 0 {
        lemma_corridors_only_floor(tiles, centers, flips, n - 1, idx);
    }
}

impl MapBuilder {
    /// Whether `self` differs from `before` in its tiles and rooms at most.
    pub open spec fn same_but_layout(&self, before: &MapBuilder) -> bool {
        &&& self.map.revealed_tiles == before.map.revealed_tiles
        &&& self.monster_spawns == before.monster_spawns
        &&& self.player_start == before.player_start
        &&& self.amulet_start == before.amulet_start
        &&& self.theme == before.theme
    }

    /// Whether `self` differs from `before` in its tiles at most.
    pub open spec fn same_but_tiles(&self, before: &MapBuilder) -> bool {
        self.same_but_layout(before) && self.rooms == before.rooms
    }

    /// The index of the tile on which the player starts.
    pub open spec fn start_idx(&self) -> usize {
        spec_map_idx(self.player_start.x as int, self.player_start.y as int) as usize
    }

    /// The index of the tile that holds the amulet or the way down.
    pub open spec fn amulet_idx(&self) -> int {
        spec_map_idx(self.amulet_start.x as int, self.amulet_start.y as int)
    }

    /// What every strategy guarantees of a generated level: every tile is
    /// wall or floor, the player starts on a floor tile, the amulet lies
    /// within reach of the player, and every spawn point is a tile that
    /// can be entered.
    pub open spec fn playable(&self) -> bool {
        &&& self.map.wf()
        &&& no_exit(self.map.tiles@)
        &&& TileGrid::spec_in_bounds(self.player_start)
        &&& self.map.tile_at(self.player_start) == TileType::Floor
        &&& TileGrid::spec_in_bounds(self.amulet_start)
        &&& reach_within(self.map.tiles@, seq![self.start_idx()], self.amulet_idx(), MAX_DEPTH as nat)
        &&& forall|i: int|
            0 <= i < self.monster_spawns.len() ==> enterable(
                self.map.tiles@,
                #[trigger] self.monster_spawns[i],
            )
    }

    /// Generates a level by the strategy and in the theme that `rng`
    /// picks, with the vault where a place takes it. A level that comes back
    /// is playable whatever was drawn; the generation fails where the
    /// strategy that was picked fails.
    pub fn new(rng: &mut RandomNumberGenerator) -> (r: Result<MapBuilder, GenerationError>)
        ensures
            generated(r),
            r matches Ok(mb) ==> mb.playable(),
    {
        let roll = range(rng, 0, 3);
        let architect = Architect::pick(roll);
        let built = architect.build(rng);
        let ghost base = built;
        let mut mb = match built {
            Ok(mb) => mb,
            Err(e) => {
                assert(generated_from(Err(e), roll as int, base, Seq::empty(), 0));
                return Err(e);
            },
        };
        let ghost plain = mb;
        prefab::apply_prefab(&mut mb, rng);
        let ghost places = choose|places: Seq<Point>|
            #[trigger] prefab::prefab_outcome(&plain, &mb, places);
        let theme_roll = range(rng, 0, 2);
        mb.theme = themes::Theme::pick(theme_roll);
        proof {
            assert(prefab::prefab_outcome(&plain, &mb, places));
            assert(furnished(&plain, &mb, places, theme_roll as int));
            assert(generated_from(Ok(mb), roll as int, base, places, theme_roll as int));
        }
        Ok(mb)
    }

    /// What holds of a level once the way down is in place: the player
    /// starts on a tile that can be entered, and the way down lies where
    /// the amulet would, within reach of the player.
    pub open spec fn has_exit(&self) -> bool {
        &&& self.map.wf()
        &&& self.map.spec_can_enter(self.player_start)
        &&& TileGrid::spec_in_bounds(self.amulet_start)
        &&& self.map.tile_at(self.amulet_start) == TileType::Exit
        &&& reach_within(self.map.tiles@, seq![self.start_idx()], self.amulet_idx(), MAX_DEPTH as nat)
        &&& forall|i: int|
            0 <= i < self.monster_spawns.len() ==> enterable(
                self.map.tiles@,
                #[trigger] self.monster_spawns[i],
            )
    }

    /// Puts the way down where the amulet would lie.
    pub fn place_exit(&mut self)
        requires
            old(self).playable(),
        ensures
            final(self).has_exit(),
            final(self).same_but_tiles(old(self)),
            final(self).map.tiles@ == old(self).map.tiles@.update(
                old(self).amulet_idx(),
                TileType::Exit,
            ),
    {
        let exit_idx = self.map.point2d_to_index(self.amulet_start);
        proof {
            let sources = seq![self.start_idx()];
            lemma_reached_is_open(
                self.map.tiles@,
                sources,
                exit_idx as int,
                MAX_DEPTH as nat,
            );
            assert(sources[0] == self.start_idx());
            lemma_reach_same_walls(
                self.map.tiles@,
                self.map.tiles@.update(exit_idx as int, TileType::Exit),
                sources,
                exit_idx as int,
                MAX_DEPTH as nat,
            );
        }
        self.map.tiles.set(exit_idx, TileType::Exit);
    }

    /// A builder with a grid of floor tiles, none of them seen, and nothing
    /// placed: no rooms, no spawn points, the start and the amulet in the
    /// top left corner, and the theme of the dungeon.
    pub fn blank() -> (mb: MapBuilder)
        ensures
            mb.map.wf(),
            mb.rooms@ == Seq::<Rect>::empty(),
            mb.monster_spawns@ == Seq::<Point>::empty(),
            forall|i: int| 0 <= i < NUM_TILES ==> mb.map.tiles[i] == TileType::Floor,
            forall|i: int| 0 <= i < NUM_TILES ==> !mb.map.revealed_tiles[i],
            mb.player_start == (Point { x: 0, y: 0 }),
            mb.amulet_start == (Point { x: 0, y: 0 }),
            mb.theme == themes::Theme::Dungeon,
    {
        MapBuilder {
            map: TileGrid::new(),
            rooms: Vec::new(),
            monster_spawns: Vec::new(),
            player_start: Point::zero(),
            amulet_start: Point::zero(),
            theme: themes::Theme::Dungeon,
        }
    }

    pub fn fill(&mut self, tile: TileType)
        requires
            old(self).map.wf(),
        ensures
            final(self).map.wf(),
            final(self).same_but_tiles(old(self)),
            forall|i: int| 0 <= i < NUM_TILES ==> final(self).map.tiles[i] == tile,
    {
        let mut i: usize = 0;
        while i < NUM_TILES
            invariant
                i <= NUM_TILES,
                self.map.wf(),
                self.same_but_tiles(old(self)),
                forall|j: int| 0 <= j < i ==> self.map.tiles[j] == tile,
            decreases NUM_TILES - i,
        {
            self.map.tiles.set(i, tile);
            i = i + 1;
        }
    }

    /// The tile furthest from the player's start among those within reach of
    /// it, the last in row-major order where several lie as far.
    pub fn find_most_distant(&self) -> (p: Point)
        requires
            self.map.wf(),
            TileGrid::spec_in_bounds(self.player_start),
        ensures
            TileGrid::spec_in_bounds(p),
            is_most_distant(
                spec_distances(self.map.tiles@, seq![self.start_idx()], MAX_DEPTH as nat),
                spec_map_idx(p.x as int, p.y as int),
            ),
            reach_within(
                self.map.tiles@,
                seq![self.start_idx()],
                spec_map_idx(p.x as int, p.y as int),
                MAX_DEPTH as nat,
            ),
    {
        let start = self.map.point2d_to_index(self.player_start);
        let mut starts: Vec<usize> = Vec::new();
        starts.push(start);
        assert(starts@ =~= seq![self.start_idx()]);
        let field = DistanceField::new(&starts, &self.map, MAX_DEPTH);
        proof {
            assert(is_distance(
                self.map.tiles@,
                starts@,
                MAX_DEPTH as nat,
                start as int,
                field.map[start as int],
            ));
            lemma_source_distance(
                self.map.tiles@,
                starts@,
                MAX_DEPTH as nat,
                0,
                field.map[start as int],
            );
        }
        match field.most_distant() {
            Some(idx) => {
                proof {
                    assert(is_distance(
                        self.map.tiles@,
                        starts@,
                        MAX_DEPTH as nat,
                        idx as int,
                        field.map[idx as int],
                    ));
                    lemma_reach_monotone(
                        self.map.tiles@,
                        starts@,
                        idx as int,
                        field.map[idx as int].unwrap() as nat,
                        MAX_DEPTH as nat,
                    );
                }
                self.map.index_to_point2d(idx)
            },
            None => {
                proof {
                    assert(field.map[start as int].is_none());
                }
                self.player_start
            },
        }
    }

    pub fn apply_vertical_tunnel(&mut self, y1: i32, y2: i32, x: i32)
        requires
            old(self).map.wf(),
        ensures
            final(self).map.wf(),
            final(self).same_but_tiles(old(self)),
            final(self).map.tiles@ == spec_vertical_tunnel(
                old(self).map.tiles@,
                y1 as int,
                y2 as int,
                x as int,
            ),
    {
        let lo = if y1 <= y2 {
            y1
        } else {
            y2
        };
        let hi = if y1 <= y2 {
            y2
        } else {
            y1
        };
        let mut y = lo;
        loop
            invariant_except_break
                lo <= y <= hi,
                forall|i: int|
                    0 <= i < NUM_TILES ==> #[trigger] self.map.tiles[i] == (if in_column(
                        i,
                        lo as int,
                        y - 1,
                        x as int,
                    ) {
                        TileType::Floor
                    } else {
                        old(self).map.tiles[i]
                    }),
            invariant
                self.map.wf(),
                old(self).map.wf(),
                self.same_but_tiles(old(self)),
                lo <= hi,
                (lo == y1 && hi == y2) || (lo == y2 && hi == y1),
            ensures
                forall|i: int|
                    0 <= i < NUM_TILES ==> #[trigger] self.map.tiles[i] == (if in_column(
                        i,
                        lo as int,
                        hi as int,
                        x as int,
                    ) {
                        TileType::Floor
                    } else {
                        old(self).map.tiles[i]
                    }),
            decreases hi - y,
        {
            if let Some(idx) = self.map.try_idx(Point::new(x, y)) {
                self.map.tiles.set(idx, TileType::Floor);
            }
            if y == hi {
                break ;
            }
            y = y + 1;
        }
        assert(self.map.tiles@ =~= spec_vertical_tunnel(
            old(self).map.tiles@,
            y1 as int,
            y2 as int,
            x as int,
        ));
    }

    pub fn apply_horizontal_tunnel(&mut self, x1: i32, x2: i32, y: i32)
        requires
            old(self).map.wf(),
        ensures
            final(self).map.wf(),
            final(self).same_but_tiles(old(self)),
            final(self).map.tiles@ == spec_horizontal_tunnel(
                old(self).map.tiles@,
                x1 as int,
                x2 as int,
                y as int,
            ),
    {
        let lo = if x1 <= x2 {
            x1
        } else {
            x2
        };
        let hi = if x1 <= x2 {
            x2
        } else {
            x1
        };
        let mut x = lo;
        loop
            invariant_except_break
                lo <= x <= hi,
                forall|i: int|
                    0 <= i < NUM_TILES ==> #[trigger] self.map.tiles[i] == (if in_row(
                        i,
                        lo as int,
                        x - 1,
                        y as int,
                    ) {
                        TileType::Floor
                    } else {
                        old(self).map.tiles[i]
                    }),
            invariant
                self.map.wf(),
                old(self).map.wf(),
                self.same_but_tiles(old(self)),
                lo <= hi,
                (lo == x1 && hi == x2) || (lo == x2 && hi == x1),
            ensures
                forall|i: int|
                    0 <= i < NUM_TILES ==> #[trigger] self.map.tiles[i] == (if in_row(
                        i,
                        lo as int,
                        hi as int,
                        y as int,
                    ) {
                        TileType::Floor
                    } else {
                        old(self).map.tiles[i]
                    }),
            decreases hi - x,
        {
            if let Some(idx) = self.map.try_idx(Point::new(x, y)) {
                self.map.tiles.set(idx, TileType::Floor);
            }
            if x == hi {
                break ;
            }
            x = x + 1;
        }
        assert(self.map.tiles@ =~= spec_horizontal_tunnel(
            old(self).map.tiles@,
            x1 as int,
            x2 as int,
            y as int,
        ));
    }

    /// Carves `room` out of the grid.
    pub fn carve_room(&mut self, room: &Rect)
        requires
            old(self).map.wf(),
        ensures
            final(self).map.wf(),
            final(self).same_but_tiles(old(self)),
            final(self).map.tiles@ == spec_carve_room(old(self).map.tiles@, *room),
    {
        let mut y = room.y1;
        while y < room.y2
            invariant
                self.map.wf(),
                old(self).map.wf(),
                self.same_but_tiles(old(self)),
                room.y1 <= y,
                forall|i: int|
                    0 <= i < NUM_TILES ==> #[trigger] self.map.tiles[i] == (if in_room(*room, i)
                        && spec_idx_point(i).y < y {
                        TileType::Floor
                    } else {
                        old(self).map.tiles[i]
                    }),
            decreases room.y2 - y,
        {
            let mut x = room.x1;
            while x < room.x2
                invariant
                    self.map.wf(),
                    old(self).map.wf(),
                    self.same_but_tiles(old(self)),
                    room.y1 <= y < room.y2,
                    room.x1 <= x,
                    forall|i: int|
                        0 <= i < NUM_TILES ==> #[trigger] self.map.tiles[i] == (if in_room(*room, i)
                            && (spec_idx_point(i).y < y || (spec_idx_point(i).y == y
                            && spec_idx_point(i).x < x)) {
                            TileType::Floor
                        } else {
                            old(self).map.tiles[i]
                        }),
                decreases room.x2 - x,
            {
                if x > 0 && x < SCREEN_WIDTH && y > 0 && y < SCREEN_HEIGHT {
                    let idx = map_idx(x, y);
                    self.map.tiles.set(idx, TileType::Floor);
                }
                x = x + 1;
            }
            y = y + 1;
        }
        assert(self.map.tiles@ =~= spec_carve_room(old(self).map.tiles@, *room));
    }

    /// Places `room` and carves it out if it intersects none of the rooms
    /// placed so far, and says whether it did.
    pub fn try_place_room(&mut self, room: Rect) -> (placed: bool)
        requires
            old(self).map.wf(),
        ensures
            final(self).map.wf(),
            final(self).same_but_layout(old(self)),
            placed == clear_of(old(self).rooms@, room),
            placed ==> final(self).rooms@ == old(self).rooms@.push(room) && final(self).map.tiles@
                == spec_carve_room(old(self).map.tiles@, room),
            !placed ==> final(self).rooms@ == old(self).rooms@
                && final(self).map.tiles@ == old(self).map.tiles@,
    {
        let mut overlap = false;
        let mut i: usize = 0;
        while i < self.rooms.len()
            invariant
                i <= self.rooms.len(),
                *self == *old(self),
                overlap == !clear_of(self.rooms@.take(i as int), room),
            decreases self.rooms.len() - i,
        {
            let ghost before = self.rooms@.take(i as int);
            let ghost after = self.rooms@.take(i as int + 1);
            let hit = self.rooms[i].intersect(&room);
            if hit {
                overlap = true;
            }
            proof {
                assert(after[i as int] == self.rooms@[i as int]);
                if clear_of(before, room) && !hit {
                    assert forall|k: int| 0 <= k < after.len() implies !(#[trigger] after[k]).spec_intersect(
                        room,
                    ) by {
                        if k < i {
                            assert(before[k] == after[k]);
                        }
                    }
                }
                if !clear_of(before, room) {
                    let k = choose|k: int|
                        0 <= k < before.len() && (#[trigger] before[k]).spec_intersect(room);
                    assert(after[k] == before[k]);
                }
            }
            i = i + 1;
        }
        assert(self.rooms@.take(i as int) =~= self.rooms@);
        if !overlap {
            self.carve_room(&room);
            self.rooms.push(room);
        }
        !overlap
    }

    /// Draws candidate rooms and places those that intersect no room placed
    /// before, until `NUM_ROOMS` rooms stand. Fails once `ROOM_ATTEMPTS`
    /// candidates were drawn and fewer rooms stand.
    pub fn build_random_rooms(&mut self, rng: &mut RandomNumberGenerator) -> (r: Result<
        (),
        GenerationError,
    >)
        requires
            old(self).map.wf(),
            disjoint_rooms(old(self).rooms@),
            forall|k: int| 0 <= k < old(self).rooms.len() ==> room_fits(#[trigger] old(self).rooms[k]),
        ensures
            final(self).map.wf(),
            final(self).same_but_layout(old(self)),
            r.is_ok() == (final(self).rooms.len() >= NUM_ROOMS),
            r matches Err(e) ==> e == GenerationError::RoomsExhausted,
            old(self).rooms.len() <= NUM_ROOMS ==> final(self).rooms.len() <= NUM_ROOMS,
            disjoint_rooms(final(self).rooms@),
            forall|k: int|
                0 <= k < final(self).rooms.len() ==> room_fits(#[trigger] final(self).rooms[k]),
            exists|candidates: Seq<Rect>|
                final(self).rooms@ == placed_rooms(old(self).rooms@, candidates) && drawn_out(
                    old(self).rooms@,
                    candidates,
                ),
            forall|i: int|
                0 <= i < NUM_TILES ==> #[trigger] final(self).map.tiles[i] == (if carved(
                    final(self).rooms@,
                    old(self).rooms.len() as int,
                    i,
                ) {
                    TileType::Floor
                } else {
                    old(self).map.tiles[i]
                }),
    {
        let ghost mut candidates: Seq<Rect> = Seq::empty();
        let ghost first = old(self).rooms.len() as int;
        let mut attempts: usize = 0;
        while self.rooms.len() < NUM_ROOMS && attempts < ROOM_ATTEMPTS
            invariant
                self.map.wf(),
                old(self).map.wf(),
                self.same_but_layout(old(self)),
                first == old(self).rooms.len(),
                first <= self.rooms.len(),
                old(self).rooms.len() <= NUM_ROOMS ==> self.rooms.len() <= NUM_ROOMS,
                disjoint_rooms(self.rooms@),
                forall|k: int| 0 <= k < self.rooms.len() ==> room_fits(#[trigger] self.rooms[k]),
                self.rooms@ == placed_rooms(old(self).rooms@, candidates),
                attempts <= ROOM_ATTEMPTS,
                candidates.len() == attempts,
                forall|k: int| 0 <= k < candidates.len() ==> room_drawn(#[trigger] candidates[k]),
                candidates.len() > 0 ==> placed_rooms(
                    old(self).rooms@,
                    candidates.drop_last(),
                ).len() < NUM_ROOMS,
                forall|i: int|
                    0 <= i < NUM_TILES ==> #[trigger] self.map.tiles[i] == (if carved(
                        self.rooms@,
                        first,
                        i,
                    ) {
                        TileType::Floor
                    } else {
                        old(self).map.tiles[i]
                    }),
            decreases ROOM_ATTEMPTS - attempts,
        {
            let x = range(rng, 1, SCREEN_WIDTH - 10);
            let y = range(rng, 1, SCREEN_HEIGHT - 10);
            let w = range(rng, 2, 10);
            let h = range(rng, 2, 10);
            let room = Rect::with_size(x, y, w, h);
            let ghost rooms_before = self.rooms@;
            let ghost tiles_before = self.map.tiles@;
            let placed = self.try_place_room(room);
            proof {
                let tried = candidates.push(room);
                assert(tried.drop_last() =~= candidates);
                assert forall|k: int| 0 <= k < tried.len() implies room_drawn(
                    #[trigger] tried[k],
                ) by {
                    if k < candidates.len() {
                        assert(tried[k] == candidates[k]);
                    }
                }
                assert(tried.last() == room);
                candidates = tried;
                if placed {
                    let n = rooms_before.len() as int;
                    assert(self.rooms@[n] == room);
                    assert forall|a: int, b: int| 0 <= a < b < self.rooms.len() implies !(
                    #[trigger] self.rooms[a]).spec_intersect(#[trigger] self.rooms[b]) by {
                        if b < n {
                            assert(self.rooms[a] == rooms_before[a]);
                            assert(self.rooms[b] == rooms_before[b]);
                        } else {
                            assert(self.rooms[a] == rooms_before[a]);
                        }
                    }
                    assert forall|i: int| 0 <= i < NUM_TILES implies #[trigger] self.map.tiles[i]
                        == (if carved(self.rooms@, first, i) {
                        TileType::Floor
                    } else {
                        old(self).map.tiles[i]
                    }) by {
                        assert(tiles_before[i] == (if carved(rooms_before, first, i) {
                            TileType::Floor
                        } else {
                            old(self).map.tiles[i]
                        }));
                        if carved(rooms_before, first, i) {
                            let k = choose|k: int|
                                first <= k < rooms_before.len() && in_room(
                                    #[trigger] rooms_before[k],
                                    i,
                                );
                            assert(in_room(self.rooms@[k], i));
                        }
                        if in_room(room, i) {
                            assert(in_room(self.rooms@[n], i));
                        }
                        if carved(self.rooms@, first, i) {
                            let k = choose|k: int|
                                first <= k < self.rooms.len() && in_room(
                                    #[trigger] self.rooms@[k],
                                    i,
                                );
                            if k < n {
                                assert(in_room(rooms_before[k], i));
                            }
                        }
                    }
                }
            }
            attempts = attempts + 1;
        }
        if self.rooms.len() >= NUM_ROOMS {
            Ok(())
        } else {
            Err(GenerationError::RoomsExhausted)
        }
    }

    /// The centres of the rooms, in the order of the rooms.
    pub fn centers(&self) -> (points: Vec<Point>)
        requires
            forall|k: int| 0 <= k < self.rooms.len() ==> room_fits(#[trigger] self.rooms[k]),
        ensures
            points@ == room_centers(self.rooms@),
    {
        let mut points: Vec<Point> = Vec::new();
        let mut i: usize = 0;
        while i < self.rooms.len()
            invariant
                i <= self.rooms.len(),
                forall|k: int| 0 <= k < self.rooms.len() ==> room_fits(#[trigger] self.rooms[k]),
                points@ == room_centers(self.rooms@.take(i as int)),
            decreases self.rooms.len() - i,
        {
            assert(room_fits(self.rooms[i as int]));
            points.push(self.rooms[i].center());
            assert(points@ =~= room_centers(self.rooms@.take(i as int + 1)));
            i = i + 1;
        }
        assert(self.rooms@.take(i as int) =~= self.rooms@);
        points
    }

    /// Joins the rooms by corridors: the room centres are put in ascending
    /// order of `x`, and each is joined to the next by an L-shaped corridor
    /// that starts horizontally or vertically as a coin falls.
    pub fn build_corridors(&mut self, rng: &mut RandomNumberGenerator)
        requires
            old(self).map.wf(),
            forall|k: int| 0 <= k < old(self).rooms.len() ==> room_fits(#[trigger] old(self).rooms[k]),
        ensures
            final(self).map.wf(),
            final(self).same_but_tiles(old(self)),
            exists|flips: Seq<bool>|
                final(self).map.tiles@ == #[trigger] spec_joined(
                    old(self).map.tiles@,
                    sorted_by_x(room_centers(old(self).rooms@)),
                    flips,
                ),
            forall|i: int|
                0 <= i < NUM_TILES ==> (#[trigger] final(self).map.tiles[i] == old(self).map.tiles[i]
                    || final(self).map.tiles[i] == TileType::Floor),
    {
        let centers = self.centers();
        let rooms = sort_by_x(&centers);
        let ghost mut flips: Seq<bool> = Seq::empty();
        let mut i: usize = 1;
        while i < rooms.len()
            invariant
                1 <= i,
                i <= rooms.len() || (rooms.len() == 0 && i == 1),
                self.map.wf(),
                old(self).map.wf(),
                self.same_but_tiles(old(self)),
                rooms.len() == old(self).rooms.len(),
                rooms@ == sorted_by_x(room_centers(old(self).rooms@)),
                flips.len() == i - 1,
                self.map.tiles@ == spec_corridors(old(self).map.tiles@, rooms@, flips, i - 1),
            decreases rooms.len() - i,
        {
            let prev = rooms[i - 1];
            let new = rooms[i];
            let horizontal_first = range(rng, 0, 2) == 1;
            proof {
                let ghost longer = flips.push(horizontal_first);
                lemma_corridors_same_flips(
                    old(self).map.tiles@,
                    rooms@,
                    flips,
                    longer,
                    i as int - 1,
                );
                flips = longer;
            }
            self.dig_corridor(prev, new, horizontal_first);
            i = i + 1;
        }
        proof {
            let n = old(self).rooms.len() as int - 1;
            if rooms.len() == 0 {
                assert(spec_corridors(old(self).map.tiles@, rooms@, flips, 0) == old(self).map.tiles@);
                assert(spec_corridors(old(self).map.tiles@, rooms@, flips, -1) == old(self).map.tiles@);
            }
            assert(self.map.tiles@ == spec_joined(old(self).map.tiles@, rooms@, flips));
            assert forall|t: int| 0 <= t < NUM_TILES implies (#[trigger] self.map.tiles[t]
                == old(self).map.tiles[t] || self.map.tiles[t] == TileType::Floor) by {
                lemma_corridors_only_floor(old(self).map.tiles@, rooms@, flips, n, t);
            }
        }
    }

    /// Picks `NUM_MONSTERS` spawn points at random among the floor tiles
    /// that lie more than ten tiles from `start`, no tile twice. Fails where
    /// fewer tiles qualify.
    pub fn spawn_monsters(&self, start: &Point, rng: &mut RandomNumberGenerator) -> (r: Result<
        Vec<Point>,
        GenerationError,
    >)
        requires
            self.map.wf(),
        ensures
            r.is_ok() == (spawnable_count(self.map.tiles@, *start, NUM_TILES as int)
                >= NUM_MONSTERS),
            match r {
                Ok(spawns) => {
                    &&& spawns.len() == NUM_MONSTERS
                    &&& spawns@.no_duplicates()
                    &&& forall|k: int|
                        0 <= k < spawns.len() ==> TileGrid::spec_in_bounds(#[trigger] spawns[k])
                            && spawnable_tile(
                            self.map.tiles@,
                            *start,
                            spec_map_idx(spawns[k].x as int, spawns[k].y as int),
                        )
                },
                Err(e) => e == GenerationError::TooFewSpawnPoints,
            },
    {
        let mut spawnable_tiles: Vec<Point> = Vec::new();
        let mut idx: usize = 0;
        while idx < NUM_TILES
            invariant
                self.map.wf(),
                idx <= NUM_TILES,
                spawnable_tiles.len() <= idx,
                spawnable_tiles.len() == spawnable_count(self.map.tiles@, *start, idx as int),
                spawnable_tiles@.no_duplicates(),
                forall|k: int|
                    0 <= k < spawnable_tiles.len() ==> TileGrid::spec_in_bounds(
                        #[trigger] spawnable_tiles[k],
                    ) && spec_map_idx(spawnable_tiles[k].x as int, spawnable_tiles[k].y as int)
                        < idx && spawnable_tile(
                        self.map.tiles@,
                        *start,
                        spec_map_idx(spawnable_tiles[k].x as int, spawnable_tiles[k].y as int),
                    ),
            decreases NUM_TILES - idx,
        {
            let point = self.map.index_to_point2d(idx);
            if self.map.tiles[idx] == TileType::Floor && far_apart(start, &point) {
                spawnable_tiles.push(point);
            }
            idx = idx + 1;
        }
        if spawnable_tiles.len() < NUM_MONSTERS {
            return Err(GenerationError::TooFewSpawnPoints);
        }
        let mut spawns: Vec<Point> = Vec::new();
        let mut n: usize = 0;
        while n < NUM_MONSTERS
            invariant
                self.map.wf(),
                n <= NUM_MONSTERS,
                spawns.len() == n,
                spawnable_tiles.len() + n >= NUM_MONSTERS,
                spawnable_tiles.len() <= NUM_TILES,
                spawnable_tiles@.no_duplicates(),
                spawns@.no_duplicates(),
                forall|j: int, k: int|
                    0 <= j < spawns.len() && 0 <= k < spawnable_tiles.len() ==> #[trigger] spawns[j]
                        != #[trigger] spawnable_tiles[k],
                forall|k: int|
                    0 <= k < spawnable_tiles.len() ==> TileGrid::spec_in_bounds(
                        #[trigger] spawnable_tiles[k],
                    ) && spawnable_tile(
                        self.map.tiles@,
                        *start,
                        spec_map_idx(spawnable_tiles[k].x as int, spawnable_tiles[k].y as int),
                    ),
                forall|k: int|
                    0 <= k < spawns.len() ==> TileGrid::spec_in_bounds(#[trigger] spawns[k])
                        && spawnable_tile(
                        self.map.tiles@,
                        *start,
                        spec_map_idx(spawns[k].x as int, spawns[k].y as int),
                    ),
            decreases NUM_MONSTERS - n,
        {
            if let Some(target_index) = random_slice_index(rng, &spawnable_tiles) {
                let ghost left = spawnable_tiles@;
                let point = spawnable_tiles[target_index];
                spawns.push(point);
                spawnable_tiles.remove(target_index);
                proof {
                    assert forall|k: int| 0 <= k < spawnable_tiles.len() implies (
                    #[trigger] spawnable_tiles[k]) != point && exists|m: int|
                        0 <= m < left.len() && left[m] == spawnable_tiles[k] by {
                        if k < target_index {
                            assert(spawnable_tiles[k] == left[k]);
                        } else {
                            assert(spawnable_tiles[k] == left[k + 1]);
                        }
                    }
                    assert forall|j: int, k: int|
                        0 <= j < spawns.len() && 0 <= k < spawnable_tiles.len() implies #[trigger] spawns[j]
                            != #[trigger] spawnable_tiles[k] by {
                        let m = choose|m: int|
                            0 <= m < left.len() && left[m] == spawnable_tiles[k];
                        if j < n {
                            assert(spawns[j] != left[m]);
                        }
                    }
                    assert forall|k: int|
                        0 <= k < spawnable_tiles.len() implies TileGrid::spec_in_bounds(
                        #[trigger] spawnable_tiles[k],
                    ) && spawnable_tile(
                        self.map.tiles@,
                        *start,
                        spec_map_idx(spawnable_tiles[k].x as int, spawnable_tiles[k].y as int),
                    ) by {
                        let m = choose|m: int|
                            0 <= m < left.len() && left[m] == spawnable_tiles[k];
                        assert(TileGrid::spec_in_bounds(left[m]));
                    }
                    assert forall|j: int, k: int|
                        0 <= j < k < spawnable_tiles.len() implies spawnable_tiles[j]
                        != spawnable_tiles[k] by {
                        let a = if j < target_index {
                            j
                        } else {
                            j + 1
                        };
                        let b = if k < target_index {
                            k
                        } else {
                            k + 1
                        };
                        assert(spawnable_tiles[j] == left[a]);
                        assert(spawnable_tiles[k] == left[b]);
                    }
                }
            }
            n = n + 1;
        }
        Ok(spawns)
    }

    /// Digs the corridor between two room centres.
    pub fn dig_corridor(&mut self, prev: Point, new: Point, horizontal_first: bool)
        requires
            old(self).map.wf(),
        ensures
            final(self).map.wf(),
            final(self).same_but_tiles(old(self)),
            final(self).map.tiles@ == spec_corridor(
                old(self).map.tiles@,
                prev,
                new,
                horizontal_first,
            ),
    {
        if horizontal_first {
            self.apply_horizontal_tunnel(prev.x, new.x, prev.y);
            self.apply_vertical_tunnel(prev.y, new.y, new.x);
        } else {
            self.apply_vertical_tunnel(prev.y, new.y, prev.x);
            self.apply_horizontal_tunnel(prev.x, new.x, new.y);
        }
    }
}

/// Whether two points lie more than ten tiles apart as the crow flies.
pub fn far_apart(a: &Point, b: &Point) -> (far: bool)
    requires
        TileGrid::spec_in_bounds(*b),
    ensures
        far == (a.distance_squared(*b) > 100),
{
    let dx: i64 = a.x as i64 - b.x as i64;
    let dy: i64 = a.y as i64 - b.y as i64;
    if dx > 10 || dx < -10 || dy > 10 || dy < -10 {
        assert(dx * dx > 100 || dy * dy > 100) by (nonlinear_arith)
            requires
                dx > 10 || dx < -10 || dy > 10 || dy < -10,
        ;
        assert(dx * dx >= 0 && dy * dy >= 0) by (nonlinear_arith);
        true
    } else {
        assert(0 <= dx * dx <= 100 && 0 <= dy * dy <= 100) by (nonlinear_arith)
            requires
                -10 <= dx <= 10,
                -10 <= dy <= 10,
        ;
        dx * dx + dy * dy > 100
    }
}

/// The first `n` corridors do not depend on the flips behind them.
pub proof fn lemma_corridors_same_flips(
    tiles: Seq<TileType>,
    centers: Seq<Point>,
    a: Seq<bool>,
    b: Seq<bool>,
    n: int,
)
    requires
        n <= a.len() <= b.len(),
        forall|k: int| 0 <= k < n ==> a[k] == b[k],
    ensures
        spec_corridors(tiles, centers, a, n) == spec_corridors(tiles, centers, b, n),
    decreases n,
{
    if n > 0 {
        lemma_corridors_same_flips(tiles, centers, a, b, n - 1);
    }
}

/// The points in ascending order of `x`; points with the same `x` keep their order.
pub fn sort_by_x(points: &Vec<Point>) -> (sorted: Vec<Point>)
    ensures
        sorted@ == sorted_by_x(points@),
        sorted.len() == points.len(),
{
    let mut sorted: Vec<Point> = Vec::new();
    let mut i: usize = 0;
    while i < points.len()
        invariant
            i <= points.len(),
            sorted.len() == i,
            sorted@ == sorted_by_x(points@.take(i as int)),
        decreases points.len() - i,
    {
        let point = points[i];
        let mut j: usize = sorted.len();
        assert(sorted@.take(j as int) =~= sorted@);
        while j > 0 && sorted[j - 1].x > point.x
            invariant
                j <= sorted.len(),
                insert_pos(sorted@, point.x as int) == insert_pos(
                    sorted@.take(j as int),
                    point.x as int,
                ),
            decreases j,
        {
            assert(sorted@.take(j as int).drop_last() =~= sorted@.take(j as int - 1));
            j = j - 1;
        }
        proof {
            assert(points@.take(i as int + 1).drop_last() =~= points@.take(i as int));
            assert(insert_pos(sorted@, point.x as int) == j);
        }
        sorted.insert(j, point);
        i = i + 1;
    }
    assert(points@.take(i as int) =~= points@);
    sorted
}

} // verus!
