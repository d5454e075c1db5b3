//! An open level without walls.

use vstd::prelude::*;
use bracket_random::prelude::RandomNumberGenerator;
use crate::distance::{
    all_open, is_most_distant, lemma_open_grid_spec_distance, open_grid_distance, spec_distances,
};
use crate::geometry::{Point, Rect};
use crate::map_builder::themes::Theme;
use crate::map::{spec_map_idx, TileType, NUM_TILES, SCREEN_HEIGHT, SCREEN_WIDTH};
use crate::map_builder::{
    GenerationError, MapArchitect, MapBuilder, MAX_DEPTH, NUM_MONSTERS,
};
use crate::rng::range;

verus! {

pub struct EmptyArchitect {}

/// On a grid without walls the tile furthest from the centre is the top left corner.
pub proof fn lemma_far_corner(tiles: Seq<TileType>, idx: int)
    requires
        all_open(tiles),
        is_most_distant(spec_distances(tiles, seq![2040usize], MAX_DEPTH as nat), idx),
    ensures
        idx == 0,
{
    let dist = spec_distances(tiles, seq![2040usize], MAX_DEPTH as nat);
    assert forall|t: int| 0 <= t < NUM_TILES implies #[trigger] dist[t] == open_grid_distance(
        2040,
        t,
        MAX_DEPTH,
    ) by {
        lemma_open_grid_spec_distance(tiles, 2040, MAX_DEPTH, t);
    }
    assert(dist[0] == Some(65u32));
    assert(dist[idx].is_some());
    if idx != 0 {
        assert(dist[idx].unwrap() < 65);
    }
}

/// What the empty strategy makes: always a level, all of it floor and
/// none of it seen, without rooms, with the player in the centre, the
/// amulet in the top left corner, and `NUM_MONSTERS` spawn points
/// anywhere off the top row and the left column.
pub open spec fn open_level(r: Result<MapBuilder, GenerationError>) -> bool {
    match r {
        Ok(mb) => {
            &&& mb.playable()
            &&& forall|i: int| 0 <= i < NUM_TILES ==> #[trigger] mb.map.tiles[i] == TileType::Floor
            &&& forall|i: int| 0 <= i < NUM_TILES ==> !#[trigger] mb.map.revealed_tiles[i]
            &&& mb.rooms@ == Seq::<Rect>::empty()
            &&& mb.theme == Theme::Dungeon
            &&& mb.player_start == (Point { x: 40, y: 25 })
            &&& mb.amulet_start == (Point { x: 0, y: 0 })
            &&& mb.monster_spawns.len() == NUM_MONSTERS
            &&& forall|k: int|
                0 <= k < mb.monster_spawns.len() ==> 1 <= (#[trigger] mb.monster_spawns[k]).x
                    < SCREEN_WIDTH && 1 <= mb.monster_spawns[k].y < SCREEN_HEIGHT
            &&& is_most_distant(
                spec_distances(mb.map.tiles@, seq![mb.start_idx()], MAX_DEPTH as nat),
                mb.amulet_idx(),
            )
        },
        Err(_) => false,
    }
}

impl MapArchitect for EmptyArchitect {
    /// A grid of floor tiles with the player in its centre and
    /// `NUM_MONSTERS` monsters anywhere off the top row and the left column.
    fn new(&mut self, rng: &mut RandomNumberGenerator) -> (r: Result<MapBuilder, GenerationError>)
        ensures
            open_level(r),
    {
        let mut mb = MapBuilder::blank();
        mb.fill(TileType::Floor);
        mb.player_start = Point::new(SCREEN_WIDTH / 2, SCREEN_HEIGHT / 2);
        mb.amulet_start = mb.find_most_distant();
        proof {
            lemma_far_corner(
                mb.map.tiles@,
                spec_map_idx(mb.amulet_start.x as int, mb.amulet_start.y as int),
            );
        }
        let mut spawns: Vec<Point> = Vec::new();
        let mut n: usize = 0;
        while n < NUM_MONSTERS
            invariant
                n <= NUM_MONSTERS,
                spawns.len() == n,
                forall|k: int|
                    0 <= k < spawns.len() ==> 1 <= (#[trigger] spawns[k]).x < SCREEN_WIDTH && 1
                        <= spawns[k].y < SCREEN_HEIGHT,
            decreases NUM_MONSTERS - n,
        {
            let x = range(rng, 1, SCREEN_WIDTH);
            let y = range(rng, 1, SCREEN_HEIGHT);
            spawns.push(Point::new(x, y));
            n = n + 1;
        }
        mb.monster_spawns = spawns;
        Ok(mb)
    }
}

} // verus!
