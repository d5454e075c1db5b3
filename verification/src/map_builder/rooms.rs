//! Rooms joined by corridors.

use vstd::prelude::*;
use bracket_random::prelude::RandomNumberGenerator;
use crate::distance::is_most_distant;
use crate::distance::spec_distances;
use crate::geometry::Point;
use crate::map::{enterable, passable, spec_map_idx, TileGrid, TileType, NUM_TILES};
use crate::map_builder::corridors::{lemma_rooms_joined, rooms_joined, tile_of};
use crate::geometry::Rect;
use crate::map_builder::{drawn_out, no_exit};
use crate::map_builder::themes::Theme;
use crate::map_builder::{
    carved, carved_grid, disjoint_rooms, in_room, placed_rooms, room_centers, room_fits,
    rooms_layout, sorted_by_x, spec_joined, GenerationError, MapArchitect, MapBuilder, MAX_DEPTH,
    NUM_ROOMS,
};

verus! {

pub struct RoomsArchitect {}

/// Rooms that fit and are carved are within reach of one another once
/// the corridors between them are dug.
pub proof fn lemma_laid_out(rooms: Seq<Rect>, tiles: Seq<TileType>, flips: Seq<bool>)
    requires
        tiles.len() == NUM_TILES,
        rooms.len() <= NUM_ROOMS,
        forall|k: int| 0 <= k < rooms.len() ==> room_fits(#[trigger] rooms[k]),
        forall|i: int|
            0 <= i < NUM_TILES && carved(rooms, 0, i) ==> #[trigger] tiles[i] == TileType::Floor,
    ensures
        rooms_joined(rooms, spec_joined(tiles, sorted_by_x(room_centers(rooms)), flips)),
{
    assert forall|k: int| 0 <= k < rooms.len() implies TileGrid::spec_in_bounds(
        #[trigger] room_centers(rooms)[k],
    ) by {
        lemma_center_carved(rooms, tiles, k);
    }
    assert forall|k: int| 0 <= k < rooms.len() implies passable(
        tiles,
        tile_of(#[trigger] rooms[k].spec_center()),
    ) by {
        lemma_center_carved(rooms, tiles, k);
    }
    lemma_rooms_joined(rooms, tiles, flips);
}

/// Lays out the rooms strategy's level on a builder without rooms: fills
/// the grid with walls, places the rooms and joins them by corridors.
/// Fails, with no corridor dug, where the candidate rooms run out.
pub fn lay_out(mb: &mut MapBuilder, rng: &mut RandomNumberGenerator) -> (r: Result<
    (),
    GenerationError,
>)
    requires
        old(mb).map.wf(),
        old(mb).rooms.len() == 0,
    ensures
        final(mb).map.wf(),
        final(mb).same_but_layout(old(mb)),
        match r {
            Ok(_) => {
                &&& final(mb).rooms.len() == NUM_ROOMS
                &&& disjoint_rooms(final(mb).rooms@)
                &&& forall|k: int|
                    0 <= k < final(mb).rooms.len() ==> room_fits(#[trigger] final(mb).rooms[k])
                &&& forall|i: int|
                    0 <= i < NUM_TILES && carved(final(mb).rooms@, 0, i)
                        ==> #[trigger] final(mb).map.tiles[i] == TileType::Floor
                &&& exists|candidates: Seq<Rect>, flips: Seq<bool>|
                    (final(mb).rooms@, final(mb).map.tiles@) == #[trigger] rooms_layout(
                        candidates,
                        flips,
                    ) && drawn_out(Seq::<Rect>::empty(), candidates)
                &&& rooms_joined(final(mb).rooms@, final(mb).map.tiles@)
                &&& no_exit(final(mb).map.tiles@)
            },
            Err(e) => {
                &&& e == GenerationError::RoomsExhausted
                &&& exists|candidates: Seq<Rect>|
                    #[trigger] drawn_out(Seq::<Rect>::empty(), candidates) && placed_rooms(
                        Seq::<Rect>::empty(),
                        candidates,
                    ).len() < NUM_ROOMS
            },
        },
{
    mb.fill(TileType::Wall);
    assert(mb.rooms@ =~= Seq::<Rect>::empty());
    let placed = mb.build_random_rooms(rng);
    let ghost carved_tiles = mb.map.tiles@;
    let ghost candidates = choose|candidates: Seq<Rect>|
        mb.rooms@ == placed_rooms(Seq::<Rect>::empty(), candidates) && drawn_out(
            Seq::<Rect>::empty(),
            candidates,
        );
    match placed {
        Ok(_) => {},
        Err(e) => {
            assert(drawn_out(Seq::<Rect>::empty(), candidates));
            return Err(e);
        },
    }
    assert(carved_tiles =~= carved_grid(mb.rooms@));
    mb.build_corridors(rng);
    proof {
        let flips = choose|flips: Seq<bool>|
            mb.map.tiles@ == #[trigger] spec_joined(
                carved_tiles,
                sorted_by_x(room_centers(mb.rooms@)),
                flips,
            );
        assert((mb.rooms@, mb.map.tiles@) == rooms_layout(candidates, flips));
        lemma_laid_out(mb.rooms@, carved_tiles, flips);
        assert forall|i: int|
            0 <= i < NUM_TILES && carved(mb.rooms@, 0, i) implies #[trigger] mb.map.tiles[i]
            == TileType::Floor by {
            assert(carved_tiles[i] == TileType::Floor);
        }
    }
    Ok(())
}

/// The centre of a room that fits is floor once the rooms are carved.
pub proof fn lemma_center_carved(rooms: Seq<Rect>, tiles: Seq<TileType>, k: int)
    requires
        0 <= k < rooms.len(),
        room_fits(rooms[k]),
        tiles.len() == NUM_TILES,
        forall|i: int|
            0 <= i < NUM_TILES && carved(rooms, 0, i) ==> #[trigger] tiles[i] == TileType::Floor,
    ensures
        TileGrid::spec_in_bounds(rooms[k].spec_center()),
        tiles[spec_map_idx(rooms[k].spec_center().x as int, rooms[k].spec_center().y as int)]
            == TileType::Floor,
        enterable(tiles, rooms[k].spec_center()),
{
    let center = rooms[k].spec_center();
    let idx = spec_map_idx(center.x as int, center.y as int);
    assert(in_room(rooms[k], idx));
    assert(carved(rooms, 0, idx));
}

/// What the rooms strategy makes of the candidates and the flips that it
/// drew: a level where `NUM_ROOMS` of the candidates found a place, and
/// the error where the candidates ran out before. In a level the rooms
/// and the tiles are the layout of the draws, the player starts in the
/// centre of the first room, the centres of the other rooms are the spawn
/// points, the amulet lies on the last of the tiles furthest from the
/// player, and nothing is seen.
pub open spec fn rooms_from(
    r: Result<MapBuilder, GenerationError>,
    candidates: Seq<Rect>,
    flips: Seq<bool>,
) -> bool {
    &&& drawn_out(Seq::<Rect>::empty(), candidates)
    &&& match r {
        Ok(mb) => {
            &&& (mb.rooms@, mb.map.tiles@) == rooms_layout(candidates, flips)
            &&& mb.rooms.len() == NUM_ROOMS
            &&& forall|i: int| 0 <= i < NUM_TILES ==> !#[trigger] mb.map.revealed_tiles[i]
            &&& mb.theme == Theme::Dungeon
            &&& mb.player_start == mb.rooms[0].spec_center()
            &&& mb.monster_spawns@ == room_centers(mb.rooms@).skip(1)
            &&& is_most_distant(
                spec_distances(mb.map.tiles@, seq![mb.start_idx()], MAX_DEPTH as nat),
                mb.amulet_idx(),
            )
        },
        Err(e) => e == GenerationError::RoomsExhausted && placed_rooms(
            Seq::<Rect>::empty(),
            candidates,
        ).len() < NUM_ROOMS,
    }
}

/// What the rooms strategy makes: for some candidates and flips what
/// `rooms_from` says. A level is playable, its rooms fit the grid, do not
/// intersect, are floor, and are within reach of one another.
pub open spec fn rooms_level(r: Result<MapBuilder, GenerationError>) -> bool {
    &&& exists|candidates: Seq<Rect>, flips: Seq<bool>| #[trigger] rooms_from(r, candidates, flips)
    &&& match r {
        Ok(mb) => {
            &&& mb.playable()
            &&& disjoint_rooms(mb.rooms@)
            &&& forall|k: int| 0 <= k < mb.rooms.len() ==> room_fits(#[trigger] mb.rooms[k])
            &&& forall|i: int|
                0 <= i < NUM_TILES && carved(mb.rooms@, 0, i) ==> #[trigger] mb.map.tiles[i]
                    == TileType::Floor
            &&& rooms_joined(mb.rooms@, mb.map.tiles@)
        },
        Err(_) => true,
    }
}

impl MapArchitect for RoomsArchitect {
    /// Fills the grid with walls, places `NUM_ROOMS` rooms that do not
    /// intersect, and joins them by corridors. The player starts in the
    /// centre of the first room, a monster in the centre of every other
    /// room. Fails only where the candidate rooms run out.
    fn new(&mut self, rng: &mut RandomNumberGenerator) -> (r: Result<MapBuilder, GenerationError>)
        ensures
            rooms_level(r),
    {
        let mut mb = MapBuilder::blank();
        match lay_out(&mut mb, rng) {
            Ok(_) => {},
            Err(e) => {
                proof {
                    let candidates = choose|candidates: Seq<Rect>|
                        #[trigger] drawn_out(Seq::<Rect>::empty(), candidates) && placed_rooms(
                            Seq::<Rect>::empty(),
                            candidates,
                        ).len() < NUM_ROOMS;
                    assert(rooms_from(Err(e), candidates, Seq::empty()));
                }
                return Err(e);
            },
        }
        let ghost (candidates, flips) = choose|candidates: Seq<Rect>, flips: Seq<bool>|
            (mb.rooms@, mb.map.tiles@) == #[trigger] rooms_layout(candidates, flips) && drawn_out(
                Seq::<Rect>::empty(),
                candidates,
            );
        assert(room_fits(mb.rooms[0]));
        mb.player_start = mb.rooms[0].center();
        proof {
            lemma_center_carved(mb.rooms@, mb.map.tiles@, 0);
        }
        mb.amulet_start = mb.find_most_distant();
        let mut spawns: Vec<Point> = Vec::new();
        let mut i: usize = 1;
        while i < mb.rooms.len()
            invariant
                1 <= i <= mb.rooms.len(),
                forall|k: int| 0 <= k < mb.rooms.len() ==> room_fits(#[trigger] mb.rooms[k]),
                spawns@ == room_centers(mb.rooms@).subrange(1, i as int),
            decreases mb.rooms.len() - i,
        {
            assert(room_fits(mb.rooms[i as int]));
            let center = mb.rooms[i].center();
            spawns.push(center);
            assert(spawns@ =~= room_centers(mb.rooms@).subrange(1, i as int + 1));
            i = i + 1;
        }
        mb.monster_spawns = spawns;
        proof {
            assert(mb.monster_spawns@ =~= room_centers(mb.rooms@).skip(1));
            assert forall|k: int| 0 <= k < mb.monster_spawns.len() implies enterable(
                mb.map.tiles@,
                #[trigger] mb.monster_spawns[k],
            ) by {
                lemma_center_carved(mb.rooms@, mb.map.tiles@, k + 1);
            }
        }
        assert(rooms_from(Ok(mb), candidates, flips));
        Ok(mb)
    }
}

} // verus!
