//! The vault: a small fortress with monsters in it that is stamped onto a
//! level where it fits.

use vstd::prelude::*;
use bracket_random::prelude::RandomNumberGenerator;
use crate::distance::{
    is_distance, lemma_reach_monotone, reach_within, spec_distances, DistanceField,
};
use crate::geometry::Point;
use crate::map::{
    enterable, map_idx, spec_idx_point, TileGrid, TileType, NUM_TILES, SCREEN_HEIGHT, SCREEN_WIDTH,
};
use crate::map_builder::{MapBuilder, MAX_DEPTH};
use crate::rng::range;

verus! {

/// The width of the vault in tiles.
pub const FORTRESS_WIDTH: i32 = 12;

/// The height of the vault in tiles.
pub const FORTRESS_HEIGHT: i32 = 11;

/// The number of places that are tried for the vault.
pub const PLACEMENT_ATTEMPTS: usize = 10;

/// The number of steps from the player's start beyond which a tile makes a place suit the vault.
pub const VAULT_DISTANCE: u32 = 20;

/// What a cell of the vault holds.
#[derive(Clone, Copy, Debug, PartialEq, Eq, Structural)]
pub enum VaultCell {
    Floor,
    Wall,
    Monster,
}

/// The cell in column `x` and row `y` of the vault. The vault is a keep of
/// walls with a gate in the middle of each side and a wing to its left and
/// to its right; one monster stands in the keep and one in each wing.
pub open spec fn spec_fortress(x: int, y: int) -> VaultCell {
    if (x == 5 && y == 3) || (x == 2 && y == 5) || (x == 9 && y == 5) {
        VaultCell::Monster
    } else if (y == 1 || y == 9) && 3 <= x <= 8 {
        VaultCell::Wall
    } else if (y == 2 || y == 3 || y == 7 || y == 8) && (x == 3 || x == 8) {
        VaultCell::Wall
    } else if (y == 4 || y == 6) && (1 <= x <= 3 || 8 <= x <= 10) {
        VaultCell::Wall
    } else {
        VaultCell::Floor
    }
}

pub fn fortress(x: i32, y: i32) -> (cell: VaultCell)
    ensures
        cell == spec_fortress(x as int, y as int),
{
    if (x == 5 && y == 3) || (x == 2 && y == 5) || (x == 9 && y == 5) {
        VaultCell::Monster
    } else if (y == 1 || y == 9) && 3 <= x && x <= 8 {
        VaultCell::Wall
    } else if (y == 2 || y == 3 || y == 7 || y == 8) && (x == 3 || x == 8) {
        VaultCell::Wall
    } else if (y == 4 || y == 6) && ((1 <= x && x <= 3) || (8 <= x && x <= 10)) {
        VaultCell::Wall
    } else {
        VaultCell::Floor
    }
}

/// Whether `at` is a place on the grid for the top left corner of the vault.
pub open spec fn vault_fits(at: Point) -> bool {
    0 <= at.x <= SCREEN_WIDTH - FORTRESS_WIDTH && 0 <= at.y <= SCREEN_HEIGHT - FORTRESS_HEIGHT
}

/// Whether `p` lies in the vault whose top left corner is `at`.
pub open spec fn in_vault(at: Point, p: Point) -> bool {
    at.x <= p.x < at.x + FORTRESS_WIDTH && at.y <= p.y < at.y + FORTRESS_HEIGHT
}

/// The tile at `idx` once the vault stands at `at`.
pub open spec fn stamped_tile(tiles: Seq<TileType>, at: Point, idx: int) -> TileType {
    let p = spec_idx_point(idx);
    if in_vault(at, p) {
        if spec_fortress(p.x - at.x, p.y - at.y) == VaultCell::Wall {
            TileType::Wall
        } else {
            TileType::Floor
        }
    } else {
        tiles[idx]
    }
}

/// The tiles once the vault stands at `at`.
pub open spec fn spec_stamped(tiles: Seq<TileType>, at: Point) -> Seq<TileType> {
    Seq::new(NUM_TILES as nat, |idx: int| stamped_tile(tiles, at, idx))
}

/// Where the monsters of the vault at `at` stand.
pub open spec fn vault_monsters(at: Point) -> Seq<Point> {
    seq![
        Point { x: (at.x + 5) as i32, y: (at.y + 3) as i32 },
        Point { x: (at.x + 2) as i32, y: (at.y + 5) as i32 },
        Point { x: (at.x + 9) as i32, y: (at.y + 5) as i32 },
    ]
}

/// The first `n` spawn points without those that lie in the vault at `at`.
pub open spec fn spawns_outside(spawns: Seq<Point>, at: Point, n: int) -> Seq<Point>
    decreases n,
{
    if n <= 0 {
        Seq::empty()
    } else if in_vault(at, spawns[n - 1]) {
        spawns_outside(spawns, at, n - 1)
    } else {
        spawns_outside(spawns, at, n - 1).push(spawns[n - 1])
    }
}

/// Whether the tile `idx` makes the place `at` suit the vault: it lies in
/// the vault, more than `VAULT_DISTANCE` steps from the player's start and
/// within its reach, and does not hold the amulet.
pub open spec fn suiting_tile(dist: Seq<Option<u32>>, at: Point, amulet: Point, idx: int) -> bool {
    &&& in_vault(at, spec_idx_point(idx))
    &&& dist[idx].is_some()
    &&& dist[idx].unwrap() > VAULT_DISTANCE
    &&& spec_idx_point(idx) != amulet
}

/// Whether the place `at` suits the vault.
pub open spec fn suits(dist: Seq<Option<u32>>, at: Point, amulet: Point) -> bool {
    exists|idx: int| 0 <= idx < NUM_TILES && #[trigger] suiting_tile(dist, at, amulet, idx)
}

/// Whether the level stays playable on the given tiles: the start is floor
/// and reaches the amulet.
pub open spec fn stays_playable(tiles: Seq<TileType>, start: usize, amulet: int) -> bool {
    tiles[start as int] == TileType::Floor && reach_within(
        tiles,
        seq![start],
        amulet,
        MAX_DEPTH as nat,
    )
}

/// Whether the vault is put at `at`: the place suits it, and the level
/// stays playable with the vault there.
pub open spec fn takes_vault(mb: &MapBuilder, at: Point) -> bool {
    suits(
        spec_distances(mb.map.tiles@, seq![mb.start_idx()], MAX_DEPTH as nat),
        at,
        mb.amulet_start,
    ) && stays_playable(spec_stamped(mb.map.tiles@, at), mb.start_idx(), mb.amulet_idx())
}

/// The builder after the vault is put at `at`: the tiles are stamped, the
/// spawn points in the vault give way, and the monsters of the vault join
/// those that are left.
pub open spec fn with_vault(before: &MapBuilder, after: &MapBuilder, at: Point) -> bool {
    &&& after.map.tiles@ == spec_stamped(before.map.tiles@, at)
    &&& after.monster_spawns@ == spawns_outside(
        before.monster_spawns@,
        at,
        before.monster_spawns.len() as int,
    ) + vault_monsters(at)
}

/// Whether `after` is `before` but for its tiles and spawn points.
pub open spec fn same_level(before: &MapBuilder, after: &MapBuilder) -> bool {
    &&& after.map.revealed_tiles == before.map.revealed_tiles
    &&& after.rooms == before.rooms
    &&& after.player_start == before.player_start
    &&& after.amulet_start == before.amulet_start
    &&& after.theme == before.theme
}

/// Whether the place `at` suits the vault.
pub fn place_suits(field: &DistanceField, at: Point, amulet: Point) -> (b: bool)
    requires
        field.wf(),
        vault_fits(at),
    ensures
        b == suits(field.map@, at, amulet),
{
    let mut y: i32 = at.y;
    while y < at.y + FORTRESS_HEIGHT
        invariant
            field.wf(),
            vault_fits(at),
            at.y <= y <= at.y + FORTRESS_HEIGHT,
            forall|idx: int|
                0 <= idx < NUM_TILES && spec_idx_point(idx).y < y ==> !#[trigger] suiting_tile(
                    field.map@,
                    at,
                    amulet,
                    idx,
                ),
        decreases at.y + FORTRESS_HEIGHT - y,
    {
        let mut x: i32 = at.x;
        while x < at.x + FORTRESS_WIDTH
            invariant
                field.wf(),
                vault_fits(at),
                at.y <= y < at.y + FORTRESS_HEIGHT,
                at.x <= x <= at.x + FORTRESS_WIDTH,
                forall|idx: int|
                    0 <= idx < NUM_TILES && (spec_idx_point(idx).y < y || (spec_idx_point(idx).y
                        == y && spec_idx_point(idx).x < x)) ==> !#[trigger] suiting_tile(
                        field.map@,
                        at,
                        amulet,
                        idx,
                    ),
            decreases at.x + FORTRESS_WIDTH - x,
        {
            let idx = map_idx(x, y);
            let far = match field.map[idx] {
                Some(d) => d > VAULT_DISTANCE,
                None => false,
            };
            if far && !(amulet.x == x && amulet.y == y) {
                assert(suiting_tile(field.map@, at, amulet, idx as int));
                return true;
            }
            x = x + 1;
        }
        y = y + 1;
    }
    false
}

/// The tiles with the vault at `at`.
pub fn stamp(tiles: &Vec<TileType>, at: Point) -> (stamped: Vec<TileType>)
    requires
        tiles.len() == NUM_TILES,
        vault_fits(at),
    ensures
        stamped@ == spec_stamped(tiles@, at),
{
    let mut stamped = tiles.clone();
    assert(stamped@ =~= tiles@);
    let mut y: i32 = at.y;
    while y < at.y + FORTRESS_HEIGHT
        invariant
            tiles.len() == NUM_TILES,
            stamped.len() == NUM_TILES,
            vault_fits(at),
            at.y <= y <= at.y + FORTRESS_HEIGHT,
            forall|idx: int|
                0 <= idx < NUM_TILES ==> #[trigger] stamped[idx] == (if spec_idx_point(idx).y < y {
                    stamped_tile(tiles@, at, idx)
                } else {
                    tiles[idx]
                }),
        decreases at.y + FORTRESS_HEIGHT - y,
    {
        let mut x: i32 = at.x;
        while x < at.x + FORTRESS_WIDTH
            invariant
                tiles.len() == NUM_TILES,
                stamped.len() == NUM_TILES,
                vault_fits(at),
                at.y <= y < at.y + FORTRESS_HEIGHT,
                at.x <= x <= at.x + FORTRESS_WIDTH,
                forall|idx: int|
                    0 <= idx < NUM_TILES ==> #[trigger] stamped[idx] == (if spec_idx_point(idx).y
                        < y || (spec_idx_point(idx).y == y && spec_idx_point(idx).x < x) {
                        stamped_tile(tiles@, at, idx)
                    } else {
                        tiles[idx]
                    }),
            decreases at.x + FORTRESS_WIDTH - x,
        {
            let idx = map_idx(x, y);
            let tile = match fortress(x - at.x, y - at.y) {
                VaultCell::Wall => TileType::Wall,
                _ => TileType::Floor,
            };
            stamped.set(idx, tile);
            x = x + 1;
        }
        y = y + 1;
    }
    assert(stamped@ =~= spec_stamped(tiles@, at));
    stamped
}

/// The spawn points that are left once the vault stands at `at`, and
/// behind them those of the monsters of the vault.
pub fn vault_spawns(spawns: &Vec<Point>, at: Point) -> (left: Vec<Point>)
    requires
        vault_fits(at),
    ensures
        left@ == spawns_outside(spawns@, at, spawns.len() as int) + vault_monsters(at),
{
    let mut left: Vec<Point> = Vec::new();
    let mut i: usize = 0;
    while i < spawns.len()
        invariant
            vault_fits(at),
            i <= spawns.len(),
            left@ == spawns_outside(spawns@, at, i as int),
        decreases spawns.len() - i,
    {
        let p = spawns[i];
        let inside = at.x <= p.x && p.x < at.x + FORTRESS_WIDTH && at.y <= p.y && p.y < at.y
            + FORTRESS_HEIGHT;
        if !inside {
            left.push(p);
        }
        i = i + 1;
    }
    let ghost outside = left@;
    left.push(Point::new(at.x + 5, at.y + 3));
    left.push(Point::new(at.x + 2, at.y + 5));
    left.push(Point::new(at.x + 9, at.y + 5));
    assert(left@ =~= outside + vault_monsters(at));
    left
}

impl MapBuilder {
    /// Puts the vault at `at` if the place suits it and the level stays
    /// playable with it, and says whether it did.
    pub fn try_vault(&mut self, at: Point, field: &DistanceField) -> (placed: bool)
        requires
            old(self).playable(),
            vault_fits(at),
            field.wf(),
            field.map@ == spec_distances(
                old(self).map.tiles@,
                seq![old(self).start_idx()],
                MAX_DEPTH as nat,
            ),
        ensures
            final(self).playable(),
            same_level(old(self), final(self)),
            placed == takes_vault(old(self), at),
            placed ==> with_vault(old(self), final(self), at),
            !placed ==> final(self).map.tiles@ == old(self).map.tiles@
                && final(self).monster_spawns@ == old(self).monster_spawns@,
    {
        if !place_suits(field, at, self.amulet_start) {
            return false;
        }
        let stamped = stamp(&self.map.tiles, at);
        let trial = TileGrid { tiles: stamped, revealed_tiles: Vec::new() };
        let start = map_idx(self.player_start.x, self.player_start.y);
        let amulet = map_idx(self.amulet_start.x, self.amulet_start.y);
        let mut starts: Vec<usize> = Vec::new();
        starts.push(start);
        assert(starts@ =~= seq![self.start_idx()]);
        let reach = reaches(&trial.tiles, &starts, amulet);
        if trial.tiles[start] != TileType::Floor || !reach {
            return false;
        }
        let spawns = vault_spawns(&self.monster_spawns, at);
        proof {
            assert forall|i: int| 0 <= i < spawns.len() implies enterable(
                trial.tiles@,
                #[trigger] spawns[i],
            ) by {
                let kept = spawns_outside(
                    self.monster_spawns@,
                    at,
                    self.monster_spawns.len() as int,
                );
                if i < kept.len() {
                    lemma_spawns_outside(
                        self.monster_spawns@,
                        at,
                        self.monster_spawns.len() as int,
                        i,
                    );
                    let k = choose|k: int|
                        0 <= k < self.monster_spawns.len() && self.monster_spawns@[k] == kept[i];
                    assert(enterable(self.map.tiles@, self.monster_spawns[k]));
                } else {
                    assert(spawns[i] == vault_monsters(at)[i - kept.len()]);
                }
            }
        }
        self.map.tiles = trial.tiles;
        self.monster_spawns = spawns;
        true
    }
}

/// Whether one of `starts` reaches the tile `goal` over `tiles`.
pub fn reaches(tiles: &Vec<TileType>, starts: &Vec<usize>, goal: usize) -> (b: bool)
    requires
        tiles.len() == NUM_TILES,
        goal < NUM_TILES,
    ensures
        b == reach_within(tiles@, starts@, goal as int, MAX_DEPTH as nat),
{
    let grid = TileGrid { tiles: tiles.clone(), revealed_tiles: vec![false; NUM_TILES] };
    assert(grid.tiles@ =~= tiles@);
    let field = DistanceField::new(starts, &grid, MAX_DEPTH);
    proof {
        assert(is_distance(
            tiles@,
            starts@,
            MAX_DEPTH as nat,
            goal as int,
            field.map[goal as int],
        ));
        if field.map[goal as int].is_some() {
            lemma_reach_monotone(
                tiles@,
                starts@,
                goal as int,
                field.map[goal as int].unwrap() as nat,
                MAX_DEPTH as nat,
            );
        }
    }
    field.map[goal].is_some()
}

/// The spawn points that are left are among those that were there, and lie outside the vault.
pub proof fn lemma_spawns_outside(spawns: Seq<Point>, at: Point, n: int, i: int)
    requires
        0 <= n <= spawns.len(),
        0 <= i < spawns_outside(spawns, at, n).len(),
    ensures
        exists|k: int| 0 <= k < n && spawns[k] == #[trigger] spawns_outside(spawns, at, n)[i],
        !in_vault(at, spawns_outside(spawns, at, n)[i]),
    decreases n,
{
    if n > 0 {
        let before = spawns_outside(spawns, at, n - 1);
        if i < before.len() {
            lemma_spawns_outside(spawns, at, n - 1, i);
            let k = choose|k: int| 0 <= k < n - 1 && spawns[k] == before[i];
            assert(spawns[k] == spawns_outside(spawns, at, n)[i]);
        } else {
            assert(spawns[n - 1] == spawns_outside(spawns, at, n)[i]);
        }
    }
}

/// Whether `at` is a place that the dice can pick for the top left corner of the vault.
pub open spec fn vault_drawn(at: Point) -> bool {
    0 <= at.x < SCREEN_WIDTH - FORTRESS_WIDTH && 0 <= at.y < SCREEN_HEIGHT - FORTRESS_HEIGHT
}

/// The number of the first of the first `n` places that takes the vault, if one does.
pub open spec fn first_taking(mb: &MapBuilder, places: Seq<Point>, n: int) -> Option<int>
    decreases n,
{
    if n <= 0 {
        None
    } else {
        match first_taking(mb, places, n - 1) {
            Some(k) => Some(k),
            None => if takes_vault(mb, places[n - 1]) {
                Some(n - 1)
            } else {
                None
            },
        }
    }
}

/// What the prefab makes of the places that were drawn. The places are
/// tried in order. The vault is put at the first that takes it, and no
/// place is drawn behind that one. Where none of them takes it,
/// `PLACEMENT_ATTEMPTS` places were drawn, and the tiles and the spawn
/// points stay as they are.
pub open spec fn prefab_outcome(
    before: &MapBuilder,
    after: &MapBuilder,
    places: Seq<Point>,
) -> bool {
    &&& places.len() <= PLACEMENT_ATTEMPTS
    &&& forall|k: int| 0 <= k < places.len() ==> vault_drawn(#[trigger] places[k])
    &&& match first_taking(before, places, places.len() as int) {
        Some(k) => k == places.len() - 1 && with_vault(before, after, places[k]),
        None => {
            &&& places.len() == PLACEMENT_ATTEMPTS
            &&& after.map.tiles@ == before.map.tiles@
            &&& after.monster_spawns@ == before.monster_spawns@
        },
    }
}

/// Which of the first `n` places takes the vault first does not depend on the places behind them.
pub proof fn lemma_first_taking_same(mb: &MapBuilder, a: Seq<Point>, b: Seq<Point>, n: int)
    requires
        n <= a.len() <= b.len(),
        forall|k: int| 0 <= k < n ==> a[k] == b[k],
    ensures
        first_taking(mb, a, n) == first_taking(mb, b, n),
    decreases n,
{
    if n > 0 {
        lemma_first_taking_same(mb, a, b, n - 1);
    }
}

/// Tries up to `PLACEMENT_ATTEMPTS` places that the dice pick and puts the
/// vault at the first that takes it. The level stays playable whatever is
/// drawn.
pub fn apply_prefab(mb: &mut MapBuilder, rng: &mut RandomNumberGenerator)
    requires
        old(mb).playable(),
    ensures
        final(mb).playable(),
        same_level(old(mb), final(mb)),
        exists|places: Seq<Point>| #[trigger] prefab_outcome(old(mb), final(mb), places),
{
    let start = map_idx(mb.player_start.x, mb.player_start.y);
    let mut starts: Vec<usize> = Vec::new();
    starts.push(start);
    assert(starts@ =~= seq![mb.start_idx()]);
    let dijkstra_map = DistanceField::new(&starts, &mb.map, MAX_DEPTH);
    let ghost mut places: Seq<Point> = Seq::empty();
    let mut attempts: usize = 0;
    while attempts < PLACEMENT_ATTEMPTS
        invariant
            same_level(old(mb), mb),
            mb.map.tiles@ == old(mb).map.tiles@,
            mb.monster_spawns@ == old(mb).monster_spawns@,
            mb.playable(),
            dijkstra_map.wf(),
            dijkstra_map.map@ == spec_distances(
                mb.map.tiles@,
                seq![mb.start_idx()],
                MAX_DEPTH as nat,
            ),
            attempts <= PLACEMENT_ATTEMPTS,
            places.len() == attempts,
            forall|k: int| 0 <= k < places.len() ==> vault_drawn(#[trigger] places[k]),
            first_taking(old(mb), places, places.len() as int).is_none(),
        decreases PLACEMENT_ATTEMPTS - attempts,
    {
        let x = range(rng, 0, SCREEN_WIDTH - FORTRESS_WIDTH);
        let y = range(rng, 0, SCREEN_HEIGHT - FORTRESS_HEIGHT);
        let at = Point::new(x, y);
        let ghost before = *mb;
        let ghost tried = places.push(at);
        proof {
            lemma_first_taking_same(old(mb), places, tried, places.len() as int);
            assert(tried[places.len() as int] == at);
            assert(takes_vault(&before, at) == takes_vault(old(mb), at));
        }
        let placed = mb.try_vault(at, &dijkstra_map);
        proof {
            places = tried;
        }
        if placed {
            assert(with_vault(old(mb), mb, at));
            assert(first_taking(old(mb), places, places.len() as int) == Some(
                places.len() - 1,
            ));
            assert(prefab_outcome(old(mb), mb, places));
            return ;
        }
        attempts = attempts + 1;
    }
    assert(prefab_outcome(old(mb), mb, places));
}

} // verus!
