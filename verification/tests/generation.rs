use bracket_random::prelude::RandomNumberGenerator;
use dungeoncrawl::distance::DistanceField;
use dungeoncrawl::geometry::{Point, Rect};
use dungeoncrawl::map::{map_idx, TileGrid, TileType, NUM_TILES};
use dungeoncrawl::map_builder::automata::{
    distance_to_center, noise_tile, CellularAutomataArchitect, ITERATIONS,
};
use dungeoncrawl::map_builder::drunkard::{
    count_floor, prune_unreachable, stagger, DrunkardsWalkArchitect, DESIRED_FLOOR,
};
use dungeoncrawl::map_builder::empty::EmptyArchitect;
use dungeoncrawl::map_builder::prefab::{
    apply_prefab, fortress, place_suits, stamp, vault_spawns, VaultCell,
};
use dungeoncrawl::map_builder::rooms::RoomsArchitect;
use dungeoncrawl::map_builder::themes::{DungeonTheme, ForestTheme, MapTheme, Theme};
use dungeoncrawl::map_builder::{
    far_apart, generate, sort_by_x, Architect, GenerationError, MapArchitect, MapBuilder,
    MAX_DEPTH, NUM_MONSTERS, NUM_ROOMS,
};

fn walls(mb: &mut MapBuilder) {
    mb.fill(TileType::Wall);
}

fn reaches(mb: &MapBuilder, from: Point, to: Point) -> bool {
    let field = DistanceField::new(&vec![map_idx(from.x, from.y)], &mb.map, MAX_DEPTH);
    field.map[map_idx(to.x, to.y)].is_some()
}

fn assert_playable(mb: &MapBuilder) {
    assert_eq!(mb.map.tiles.len(), NUM_TILES);
    assert!(mb.map.in_bounds(mb.player_start));
    assert_eq!(mb.map.tiles[map_idx(mb.player_start.x, mb.player_start.y)], TileType::Floor);
    assert!(mb.map.in_bounds(mb.amulet_start));
    assert!(reaches(mb, mb.player_start, mb.amulet_start));
    assert!(mb.monster_spawns.iter().all(|p| mb.map.in_bounds(*p)));
}

#[test]
fn every_generated_level_is_playable() {
    let mut generated = 0;
    for seed in 0..40u64 {
        match generate(seed) {
            Ok(mb) => {
                assert_playable(&mb);
                generated += 1;
            }
            Err(e) => assert!(matches!(
                e,
                GenerationError::RoomsExhausted
                    | GenerationError::NoFloor
                    | GenerationError::TooFewSpawnPoints
                    | GenerationError::WalksExhausted
            )),
        }
    }
    assert!(generated >= 30);
}

#[test]
fn the_same_seed_gives_the_same_level() {
    for seed in [1u64, 7, 42, 1000] {
        let a = generate(seed);
        let b = generate(seed);
        match (a, b) {
            (Ok(a), Ok(b)) => {
                assert_eq!(a.map.tiles, b.map.tiles);
                assert_eq!(a.rooms, b.rooms);
                assert_eq!(a.monster_spawns, b.monster_spawns);
                assert_eq!(a.player_start, b.player_start);
                assert_eq!(a.amulet_start, b.amulet_start);
                assert_eq!(a.theme, b.theme);
            }
            (Err(a), Err(b)) => assert_eq!(a, b),
            _ => panic!("one run failed and the other did not"),
        }
    }
}

#[test]
fn the_rooms_strategy_gives_the_same_layout_for_the_same_seed() {
    for seed in [3u64, 99, 2024] {
        let mut rng_a = RandomNumberGenerator::seeded(seed);
        let mut rng_b = RandomNumberGenerator::seeded(seed);
        let a = (RoomsArchitect {}).new(&mut rng_a).unwrap();
        let b = (RoomsArchitect {}).new(&mut rng_b).unwrap();
        assert_eq!(a.rooms, b.rooms);
        assert_eq!(a.map.tiles, b.map.tiles);
        assert_eq!(a.monster_spawns, b.monster_spawns);
    }
    let mut rng_a = RandomNumberGenerator::seeded(3);
    let mut rng_b = RandomNumberGenerator::seeded(4);
    let a = (RoomsArchitect {}).new(&mut rng_a).unwrap();
    let b = (RoomsArchitect {}).new(&mut rng_b).unwrap();
    assert_ne!(a.rooms, b.rooms);
}

#[test]
fn the_rooms_strategy_places_rooms_apart_and_joins_them() {
    for seed in 0..10u64 {
        let mut rng = RandomNumberGenerator::seeded(seed);
        let mb = (RoomsArchitect {}).new(&mut rng).unwrap();
        assert_playable(&mb);
        assert_eq!(mb.rooms.len(), NUM_ROOMS);
        for (i, a) in mb.rooms.iter().enumerate() {
            assert!(1 <= a.x1 && a.x1 < 70 && 1 <= a.y1 && a.y1 < 40);
            assert!(2 <= a.x2 - a.x1 && a.x2 - a.x1 < 10);
            assert!(2 <= a.y2 - a.y1 && a.y2 - a.y1 < 10);
            for b in mb.rooms.iter().skip(i + 1) {
                assert!(!a.intersect(b));
            }
            for y in a.y1..a.y2 {
                for x in a.x1..a.x2 {
                    assert_eq!(mb.map.tiles[map_idx(x, y)], TileType::Floor);
                }
            }
        }
        assert_eq!(mb.player_start, mb.rooms[0].center());
        let centres: Vec<Point> = mb.rooms.iter().skip(1).map(|r| r.center()).collect();
        assert_eq!(mb.monster_spawns, centres);
        for room in mb.rooms.iter() {
            assert!(reaches(&mb, mb.player_start, room.center()));
        }
    }
}

#[test]
fn the_empty_strategy_gives_an_open_grid() {
    let mut rng = RandomNumberGenerator::seeded(5);
    let mb = (EmptyArchitect {}).new(&mut rng).unwrap();
    assert_playable(&mb);
    assert!(mb.map.tiles.iter().all(|t| *t == TileType::Floor));
    assert_eq!(mb.player_start, Point::new(40, 25));
    assert_eq!(mb.amulet_start, Point::new(0, 0));
    assert_eq!(mb.monster_spawns.len(), NUM_MONSTERS);
    assert!(mb.monster_spawns.iter().all(|p| 1 <= p.x && p.x < 80 && 1 <= p.y && p.y < 50));
    let first = mb.monster_spawns[0];
    assert!(mb.monster_spawns.iter().any(|p| *p != first));
}

#[test]
fn the_cave_strategy_starts_the_player_near_the_centre() {
    let mut made = 0;
    for seed in 0..10u64 {
        let mut rng = RandomNumberGenerator::seeded(seed);
        match (CellularAutomataArchitect {}).new(&mut rng) {
            Ok(mb) => {
                made += 1;
                assert_playable(&mb);
                let start = distance_to_center(mb.player_start);
                for (idx, t) in mb.map.tiles.iter().enumerate() {
                    if *t == TileType::Floor {
                        let d = distance_to_center(mb.map.index_to_point2d(idx));
                        assert!(start <= d);
                    }
                }
                assert_eq!(mb.monster_spawns.len(), NUM_MONSTERS);
                for (i, p) in mb.monster_spawns.iter().enumerate() {
                    assert_eq!(mb.map.tiles[map_idx(p.x, p.y)], TileType::Floor);
                    assert!(far_apart(&mb.player_start, p));
                    assert!(mb.monster_spawns.iter().skip(i + 1).all(|q| q != p));
                }
                assert!(mb.map.tiles.iter().any(|t| *t == TileType::Wall));
            }
            Err(e) => assert!(
                e == GenerationError::NoFloor || e == GenerationError::TooFewSpawnPoints
            ),
        }
    }
    assert!(made >= 5);
}

#[test]
fn the_random_walk_strategy_digs_a_third_of_the_grid() {
    let mut made = 0;
    for seed in 0..6u64 {
        let mut rng = RandomNumberGenerator::seeded(seed);
        match (DrunkardsWalkArchitect {}).new(&mut rng) {
            Ok(mb) => {
                made += 1;
                assert_playable(&mb);
                assert_eq!(mb.player_start, Point::new(40, 25));
                assert!(count_floor(&mb.map) >= DESIRED_FLOOR);
                assert_eq!(mb.monster_spawns.len(), NUM_MONSTERS);
                for p in mb.monster_spawns.iter() {
                    assert_eq!(mb.map.tiles[map_idx(p.x, p.y)], TileType::Floor);
                    assert!(far_apart(&mb.player_start, p));
                }
            }
            Err(e) => assert!(
                e == GenerationError::WalksExhausted || e == GenerationError::TooFewSpawnPoints
            ),
        }
    }
    assert!(made >= 3);
}

#[test]
fn rolls_pick_the_strategy_and_the_theme() {
    assert_eq!(Architect::pick(0), Architect::DrunkardsWalk);
    assert_eq!(Architect::pick(1), Architect::Rooms);
    assert_eq!(Architect::pick(2), Architect::CellularAutomata);
    assert_eq!(Theme::pick(0), Theme::Dungeon);
    assert_eq!(Theme::pick(1), Theme::Forest);
    assert_eq!(DungeonTheme::new(), Theme::Dungeon);
    assert_eq!(ForestTheme::new(), Theme::Forest);
    let mut rng = RandomNumberGenerator::seeded(11);
    let mb = Architect::Empty.build(&mut rng).unwrap();
    assert!(mb.map.tiles.iter().all(|t| *t == TileType::Floor));
}

#[test]
fn themes_give_each_tile_its_glyph() {
    assert_eq!((DungeonTheme {}).tile_to_render(TileType::Floor), '.');
    assert_eq!((DungeonTheme {}).tile_to_render(TileType::Wall), '#');
    assert_eq!((DungeonTheme {}).tile_to_render(TileType::Exit), '>');
    assert_eq!((ForestTheme {}).tile_to_render(TileType::Floor), ';');
    assert_eq!((ForestTheme {}).tile_to_render(TileType::Wall), '"');
    assert_eq!((ForestTheme {}).tile_to_render(TileType::Exit), '>');
    assert_eq!(Theme::Dungeon.tile_to_render(TileType::Wall), '#');
    assert_eq!(Theme::Forest.tile_to_render(TileType::Wall), '"');
}

#[test]
fn fill_sets_every_tile() {
    let mut mb = MapBuilder::blank();
    assert!(mb.map.tiles.iter().all(|t| *t == TileType::Floor));
    mb.fill(TileType::Wall);
    assert!(mb.map.tiles.iter().all(|t| *t == TileType::Wall));
    mb.fill(TileType::Exit);
    assert!(mb.map.tiles.iter().all(|t| *t == TileType::Exit));
}

#[test]
fn tunnels_dig_between_their_ends_in_either_order() {
    let mut mb = MapBuilder::blank();
    walls(&mut mb);
    mb.apply_horizontal_tunnel(7, 3, 5);
    mb.apply_vertical_tunnel(2, 4, 10);
    for y in 0..50 {
        for x in 0..80 {
            let dug = (y == 5 && (3..=7).contains(&x)) || (x == 10 && (2..=4).contains(&y));
            let expected = if dug { TileType::Floor } else { TileType::Wall };
            assert_eq!(mb.map.tiles[map_idx(x, y)], expected, "at ({}, {})", x, y);
        }
    }
}

#[test]
fn tunnels_stop_at_the_edge_of_the_grid() {
    let mut mb = MapBuilder::blank();
    walls(&mut mb);
    mb.apply_horizontal_tunnel(-5, 2, 0);
    mb.apply_vertical_tunnel(47, 60, 79);
    mb.apply_horizontal_tunnel(0, 10, 50);
    mb.apply_vertical_tunnel(0, 10, -1);
    let dug: Vec<usize> = (0..NUM_TILES).filter(|i| mb.map.tiles[*i] == TileType::Floor).collect();
    assert_eq!(
        dug,
        vec![0, 1, 2, map_idx(79, 47), map_idx(79, 48), map_idx(79, 49)]
    );
}

#[test]
fn a_corridor_turns_at_the_corner_that_the_flip_picks() {
    let prev = Point::new(3, 3);
    let new = Point::new(6, 5);
    let mut first = MapBuilder::blank();
    walls(&mut first);
    first.dig_corridor(prev, new, true);
    let mut second = MapBuilder::blank();
    walls(&mut second);
    second.dig_corridor(prev, new, false);
    for y in 0..50 {
        for x in 0..80 {
            let horizontal_first =
                (y == 3 && (3..=6).contains(&x)) || (x == 6 && (3..=5).contains(&y));
            let vertical_first =
                (x == 3 && (3..=5).contains(&y)) || (y == 5 && (3..=6).contains(&x));
            assert_eq!(first.map.tiles[map_idx(x, y)] == TileType::Floor, horizontal_first);
            assert_eq!(second.map.tiles[map_idx(x, y)] == TileType::Floor, vertical_first);
        }
    }
}

#[test]
fn a_room_is_carved_off_the_top_row_and_the_left_column() {
    let mut mb = MapBuilder::blank();
    walls(&mut mb);
    mb.carve_room(&Rect { x1: 0, x2: 3, y1: 0, y2: 3 });
    mb.carve_room(&Rect { x1: 78, x2: 90, y1: 48, y2: 60 });
    let dug: Vec<usize> = (0..NUM_TILES).filter(|i| mb.map.tiles[*i] == TileType::Floor).collect();
    assert_eq!(
        dug,
        vec![
            map_idx(1, 1),
            map_idx(2, 1),
            map_idx(1, 2),
            map_idx(2, 2),
            map_idx(78, 48),
            map_idx(79, 48),
            map_idx(78, 49),
            map_idx(79, 49)
        ]
    );
}

#[test]
fn a_room_is_placed_only_where_it_touches_no_other() {
    let mut mb = MapBuilder::blank();
    walls(&mut mb);
    assert!(mb.try_place_room(Rect::with_size(5, 5, 4, 4)));
    assert!(!mb.try_place_room(Rect::with_size(9, 9, 3, 3)));
    assert!(!mb.try_place_room(Rect::with_size(6, 6, 2, 2)));
    assert!(mb.try_place_room(Rect::with_size(10, 5, 3, 3)));
    assert_eq!(mb.rooms, vec![Rect::with_size(5, 5, 4, 4), Rect::with_size(10, 5, 3, 3)]);
    assert_eq!(mb.map.tiles[map_idx(5, 5)], TileType::Floor);
    assert_eq!(mb.map.tiles[map_idx(8, 8)], TileType::Floor);
    assert_eq!(mb.map.tiles[map_idx(9, 9)], TileType::Wall);
    assert_eq!(mb.map.tiles[map_idx(9, 5)], TileType::Wall);
    assert_eq!(mb.map.tiles[map_idx(10, 5)], TileType::Floor);
    assert_eq!(count_floor(&mb.map), 16 + 9);
}

#[test]
fn room_placement_gives_up_when_the_candidates_run_out() {
    let mut mb = MapBuilder::blank();
    walls(&mut mb);
    assert!(mb.try_place_room(Rect { x1: 1, x2: 79, y1: 1, y2: 49 }));
    let mut rng = RandomNumberGenerator::seeded(1);
    assert_eq!(mb.build_random_rooms(&mut rng), Err(GenerationError::RoomsExhausted));
    assert_eq!(mb.rooms.len(), 1);
}

#[test]
fn corridors_join_every_room_to_the_rest() {
    let mut mb = MapBuilder::blank();
    walls(&mut mb);
    assert!(mb.try_place_room(Rect::with_size(60, 40, 3, 3)));
    assert!(mb.try_place_room(Rect::with_size(2, 2, 3, 3)));
    assert!(mb.try_place_room(Rect::with_size(30, 20, 3, 3)));
    let mut rng = RandomNumberGenerator::seeded(9);
    mb.build_corridors(&mut rng);
    mb.player_start = Point::new(3, 3);
    assert!(reaches(&mb, Point::new(3, 3), Point::new(31, 21)));
    assert!(reaches(&mb, Point::new(3, 3), Point::new(61, 41)));
    assert_eq!(mb.rooms[0], Rect::with_size(60, 40, 3, 3));
}

#[test]
fn points_are_sorted_by_x_and_keep_their_order_otherwise() {
    let points = vec![
        Point::new(5, 0),
        Point::new(2, 1),
        Point::new(5, 2),
        Point::new(1, 3),
        Point::new(2, 4),
        Point::new(9, 5),
        Point::new(1, 6),
    ];
    assert_eq!(
        sort_by_x(&points),
        vec![
            Point::new(1, 3),
            Point::new(1, 6),
            Point::new(2, 1),
            Point::new(2, 4),
            Point::new(5, 0),
            Point::new(5, 2),
            Point::new(9, 5)
        ]
    );
    assert_eq!(sort_by_x(&Vec::new()), Vec::<Point>::new());
}

#[test]
fn the_most_distant_tile_from_the_start_is_found() {
    let mut mb = MapBuilder::blank();
    walls(&mut mb);
    mb.apply_horizontal_tunnel(10, 20, 10);
    mb.player_start = Point::new(12, 10);
    assert_eq!(mb.find_most_distant(), Point::new(20, 10));
    mb.player_start = Point::new(19, 10);
    assert_eq!(mb.find_most_distant(), Point::new(10, 10));
    mb.player_start = Point::new(15, 10);
    assert_eq!(mb.find_most_distant(), Point::new(20, 10));
    mb.player_start = Point::new(40, 40);
    assert_eq!(mb.find_most_distant(), Point::new(40, 40));
}

#[test]
fn more_than_ten_tiles_apart_is_far() {
    let a = Point::new(40, 25);
    assert!(!far_apart(&a, &Point::new(50, 25)));
    assert!(far_apart(&a, &Point::new(51, 25)));
    assert!(!far_apart(&a, &Point::new(46, 33)));
    assert!(far_apart(&a, &Point::new(47, 33)));
    assert!(far_apart(&a, &Point::new(48, 32)));
    assert!(!far_apart(&a, &a));
}

#[test]
fn spawn_points_are_fifty_far_floor_tiles() {
    let mb = MapBuilder::blank();
    let start = Point::new(40, 25);
    let mut rng = RandomNumberGenerator::seeded(17);
    let spawns = mb.spawn_monsters(&start, &mut rng).unwrap();
    assert_eq!(spawns.len(), NUM_MONSTERS);
    for (i, p) in spawns.iter().enumerate() {
        assert!(far_apart(&start, p));
        assert!(spawns.iter().skip(i + 1).all(|q| q != p));
    }
    let mut other = RandomNumberGenerator::seeded(18);
    assert_ne!(mb.spawn_monsters(&start, &mut other).unwrap(), spawns);
}

#[test]
fn too_few_spawn_points_are_an_error() {
    let mut mb = MapBuilder::blank();
    walls(&mut mb);
    mb.apply_horizontal_tunnel(0, 48, 0);
    let mut rng = RandomNumberGenerator::seeded(17);
    // 49 floor tiles, all far from the start.
    assert_eq!(
        mb.spawn_monsters(&Point::new(79, 49), &mut rng),
        Err(GenerationError::TooFewSpawnPoints)
    );
    mb.apply_horizontal_tunnel(0, 49, 0);
    let spawns = mb.spawn_monsters(&Point::new(79, 49), &mut rng).unwrap();
    let mut xs: Vec<i32> = spawns.iter().map(|p| p.x).collect();
    xs.sort();
    assert_eq!(xs, (0..50).collect::<Vec<i32>>());
    // The same fifty tiles do not qualify when the start lies among them.
    assert_eq!(
        mb.spawn_monsters(&Point::new(0, 0), &mut rng),
        Err(GenerationError::TooFewSpawnPoints)
    );
}

#[test]
fn a_roll_above_55_seeds_floor() {
    assert_eq!(noise_tile(0), TileType::Wall);
    assert_eq!(noise_tile(55), TileType::Wall);
    assert_eq!(noise_tile(56), TileType::Floor);
    assert_eq!(noise_tile(99), TileType::Floor);
}

#[test]
fn noise_seeds_walls_and_floor() {
    let mut grid = TileGrid::new();
    let mut rng = RandomNumberGenerator::seeded(33);
    (CellularAutomataArchitect {}).random_noise_map(&mut rng, &mut grid);
    let floor = grid.tiles.iter().filter(|t| **t == TileType::Floor).count();
    let wall = grid.tiles.iter().filter(|t| **t == TileType::Wall).count();
    assert_eq!(floor + wall, NUM_TILES);
    assert!(1400 < floor && floor < 2100);
}

#[test]
fn wall_neighbours_are_counted_without_the_tile_itself() {
    let mut grid = TileGrid::new();
    let architect = CellularAutomataArchitect {};
    assert_eq!(architect.count_neighbors(5, 5, &grid), 0);
    grid.tiles[map_idx(5, 5)] = TileType::Wall;
    assert_eq!(architect.count_neighbors(5, 5, &grid), 0);
    grid.tiles[map_idx(4, 4)] = TileType::Wall;
    grid.tiles[map_idx(6, 6)] = TileType::Wall;
    grid.tiles[map_idx(5, 4)] = TileType::Wall;
    grid.tiles[map_idx(7, 5)] = TileType::Wall;
    assert_eq!(architect.count_neighbors(5, 5, &grid), 3);
    assert_eq!(architect.count_neighbors(6, 5, &grid), 4);
    for t in grid.tiles.iter_mut() {
        *t = TileType::Wall;
    }
    assert_eq!(architect.count_neighbors(5, 5, &grid), 8);
    assert_eq!(architect.count_neighbors(1, 1, &grid), 8);
    assert_eq!(architect.count_neighbors(78, 48, &grid), 8);
}

#[test]
fn smoothing_follows_the_majority_and_fills_open_space() {
    let mut grid = TileGrid::new();
    // Walls around (10, 10): four of them.
    for (x, y) in [(9, 9), (10, 9), (11, 9), (9, 10)] {
        grid.tiles[map_idx(x, y)] = TileType::Wall;
    }
    // Walls around (20, 20): five of them.
    for (x, y) in [(19, 19), (20, 19), (21, 19), (19, 20), (21, 20)] {
        grid.tiles[map_idx(x, y)] = TileType::Wall;
    }
    let before = grid.tiles.clone();
    let mut architect = CellularAutomataArchitect {};
    architect.iteration(&mut grid);
    assert_eq!(grid.tiles[map_idx(10, 10)], TileType::Floor);
    assert_eq!(grid.tiles[map_idx(20, 20)], TileType::Wall);
    // No wall around: wall. One wall around: floor.
    assert_eq!(grid.tiles[map_idx(40, 40)], TileType::Wall);
    assert_eq!(grid.tiles[map_idx(12, 10)], TileType::Floor);
    // A wall with three walls around it turns into floor.
    assert_eq!(grid.tiles[map_idx(10, 9)], TileType::Floor);
    // The outermost ring stays as it was.
    for x in 0..80 {
        assert_eq!(grid.tiles[map_idx(x, 0)], before[map_idx(x, 0)]);
        assert_eq!(grid.tiles[map_idx(x, 49)], before[map_idx(x, 49)]);
    }
    for y in 0..50 {
        assert_eq!(grid.tiles[map_idx(0, y)], before[map_idx(0, y)]);
        assert_eq!(grid.tiles[map_idx(79, y)], before[map_idx(79, y)]);
    }
}

#[test]
fn smoothing_a_stable_grid_changes_nothing() {
    let mut architect = CellularAutomataArchitect {};
    let mut solid = TileGrid::new();
    for t in solid.tiles.iter_mut() {
        *t = TileType::Wall;
    }
    let before = solid.tiles.clone();
    architect.iteration(&mut solid);
    assert_eq!(solid.tiles, before);
    architect.iteration(&mut solid);
    assert_eq!(solid.tiles, before);

    // Smooth a seeded grid until it stands still, then twice more.
    let mut grid = TileGrid::new();
    let mut rng = RandomNumberGenerator::seeded(8);
    architect.random_noise_map(&mut rng, &mut grid);
    let mut stable = false;
    for _ in 0..200 {
        let last = grid.tiles.clone();
        architect.iteration(&mut grid);
        if grid.tiles == last {
            stable = true;
            break;
        }
    }
    if stable {
        let still = grid.tiles.clone();
        architect.iteration(&mut grid);
        architect.iteration(&mut grid);
        assert_eq!(grid.tiles, still);
    }
    assert_eq!(ITERATIONS, 10);
}

#[test]
fn the_start_is_the_first_of_the_nearest_floor_tiles() {
    let architect = CellularAutomataArchitect {};
    let mut grid = TileGrid::new();
    assert_eq!(architect.find_start(&grid), Some(Point::new(40, 25)));
    for t in grid.tiles.iter_mut() {
        *t = TileType::Wall;
    }
    assert_eq!(architect.find_start(&grid), None);
    grid.tiles[map_idx(42, 25)] = TileType::Floor;
    grid.tiles[map_idx(38, 25)] = TileType::Floor;
    grid.tiles[map_idx(40, 27)] = TileType::Floor;
    grid.tiles[map_idx(40, 23)] = TileType::Floor;
    assert_eq!(architect.find_start(&grid), Some(Point::new(40, 23)));
    grid.tiles[map_idx(41, 26)] = TileType::Floor;
    assert_eq!(architect.find_start(&grid), Some(Point::new(41, 26)));
    assert_eq!(distance_to_center(Point::new(41, 26)), 2);
    assert_eq!(distance_to_center(Point::new(0, 0)), 2225);
    assert_eq!(distance_to_center(Point::new(79, 49)), 39 * 39 + 24 * 24);
}

#[test]
fn a_walker_steps_as_the_roll_says() {
    let p = Point::new(10, 10);
    assert_eq!(stagger(p, 0), Point::new(9, 10));
    assert_eq!(stagger(p, 1), Point::new(11, 10));
    assert_eq!(stagger(p, 2), Point::new(10, 9));
    assert_eq!(stagger(p, 3), Point::new(10, 11));
    assert_eq!(stagger(Point::new(0, 0), 0), Point::new(-1, 0));
    assert_eq!(stagger(Point::new(79, 49), 3), Point::new(79, 50));
}

#[test]
fn a_walk_digs_a_connected_tunnel_from_its_start() {
    let mut mb = MapBuilder::blank();
    walls(&mut mb);
    let mut rng = RandomNumberGenerator::seeded(21);
    let start = Point::new(40, 25);
    (DrunkardsWalkArchitect {}).drunkard(&start, &mut rng, &mut mb.map);
    assert_eq!(mb.map.tiles[map_idx(40, 25)], TileType::Floor);
    let floor = count_floor(&mb.map);
    assert!(2 <= floor && floor <= 401);
    let field = DistanceField::new(&vec![map_idx(40, 25)], &mb.map, MAX_DEPTH);
    for (idx, t) in mb.map.tiles.iter().enumerate() {
        assert_eq!(*t == TileType::Floor, field.map[idx].is_some());
    }
    // A walk from the corner that leaves the grid at once digs its start only.
    let mut found = false;
    for seed in 0..50u64 {
        let mut corner = MapBuilder::blank();
        walls(&mut corner);
        let mut rng = RandomNumberGenerator::seeded(seed);
        (DrunkardsWalkArchitect {}).drunkard(&Point::new(0, 0), &mut rng, &mut corner.map);
        assert_eq!(corner.map.tiles[0], TileType::Floor);
        if count_floor(&corner.map) == 1 {
            found = true;
        }
    }
    assert!(found);
}

#[test]
fn unreached_tiles_are_walled_up() {
    let mut grid = TileGrid::new();
    for t in grid.tiles.iter_mut() {
        *t = TileType::Wall;
    }
    for x in 0..5 {
        grid.tiles[map_idx(x, 0)] = TileType::Floor;
    }
    for x in 10..15 {
        grid.tiles[map_idx(x, 0)] = TileType::Floor;
    }
    let field = DistanceField::new(&vec![map_idx(0, 0)], &grid, MAX_DEPTH);
    prune_unreachable(&mut grid, &field);
    assert_eq!(count_floor(&grid), 5);
    for x in 0..5 {
        assert_eq!(grid.tiles[map_idx(x, 0)], TileType::Floor);
    }
}

#[test]
fn the_way_down_lies_where_the_amulet_would() {
    let mut rng = RandomNumberGenerator::seeded(5);
    let mut mb = (EmptyArchitect {}).new(&mut rng).unwrap();
    let before = mb.map.tiles.clone();
    mb.place_exit();
    assert_eq!(mb.map.tiles[map_idx(mb.amulet_start.x, mb.amulet_start.y)], TileType::Exit);
    for idx in 0..NUM_TILES {
        if idx != map_idx(mb.amulet_start.x, mb.amulet_start.y) {
            assert_eq!(mb.map.tiles[idx], before[idx]);
        }
    }
    assert!(reaches(&mb, mb.player_start, mb.amulet_start));
}

#[test]
fn the_vault_has_the_shape_of_a_fortress() {
    let picture = [
        "------------",
        "---######---",
        "---#----#---",
        "---#-M--#---",
        "-###----###-",
        "--M------M--",
        "-###----###-",
        "---#----#---",
        "---#----#---",
        "---######---",
        "------------",
    ];
    for (y, row) in picture.iter().enumerate() {
        for (x, c) in row.chars().enumerate() {
            let expected = match c {
                '#' => VaultCell::Wall,
                'M' => VaultCell::Monster,
                _ => VaultCell::Floor,
            };
            assert_eq!(fortress(x as i32, y as i32), expected, "at ({}, {})", x, y);
        }
    }
}

#[test]
fn the_vault_is_stamped_onto_the_tiles() {
    let mut walls = TileGrid::new();
    for t in walls.tiles.iter_mut() {
        *t = TileType::Wall;
    }
    let at = Point::new(20, 10);
    let stamped = stamp(&walls.tiles, at);
    for y in 0..50 {
        for x in 0..80 {
            let inside = (20..32).contains(&x) && (10..21).contains(&y);
            let expected = if inside && fortress(x - 20, y - 10) != VaultCell::Wall {
                TileType::Floor
            } else {
                TileType::Wall
            };
            assert_eq!(stamped[map_idx(x, y)], expected, "at ({}, {})", x, y);
        }
    }
    let open = TileGrid::new();
    let stamped = stamp(&open.tiles, at);
    assert_eq!(stamped[map_idx(23, 11)], TileType::Wall);
    assert_eq!(stamped[map_idx(25, 13)], TileType::Floor);
    assert_eq!(stamped[map_idx(19, 10)], TileType::Floor);
}

#[test]
fn spawn_points_in_the_vault_give_way_to_its_monsters() {
    let spawns = vec![
        Point::new(1, 1),
        Point::new(20, 10),
        Point::new(31, 20),
        Point::new(32, 20),
        Point::new(31, 21),
        Point::new(25, 15),
        Point::new(70, 40),
    ];
    assert_eq!(
        vault_spawns(&spawns, Point::new(20, 10)),
        vec![
            Point::new(1, 1),
            Point::new(32, 20),
            Point::new(31, 21),
            Point::new(70, 40),
            Point::new(25, 13),
            Point::new(22, 15),
            Point::new(29, 15)
        ]
    );
}

#[test]
fn a_place_suits_the_vault_when_it_holds_a_far_tile() {
    let grid = TileGrid::new();
    let field = DistanceField::new(&vec![map_idx(40, 25)], &grid, MAX_DEPTH);
    let amulet = Point::new(0, 0);
    // Around the start every tile of the vault is at most 16 steps away.
    assert!(!place_suits(&field, Point::new(35, 20), amulet));
    // The far corner of this place is 21 steps away.
    assert!(place_suits(&field, Point::new(40, 25), amulet));
    assert!(place_suits(&field, Point::new(0, 0), amulet));
    // Where the only tile that is far enough holds the amulet, the place does not suit.
    assert!(!place_suits(&field, Point::new(40, 25), Point::new(51, 35)));
    let unreached = DistanceField::new(&vec![map_idx(40, 25)], &grid, 5);
    assert!(!place_suits(&unreached, Point::new(0, 0), amulet));
}

#[test]
fn the_vault_is_put_where_it_is_taken_and_nowhere_else() {
    let mut rng = RandomNumberGenerator::seeded(5);
    let mut mb = (EmptyArchitect {}).new(&mut rng).unwrap();
    let spawns = mb.monster_spawns.clone();
    let field = DistanceField::new(&vec![map_idx(40, 25)], &mb.map, MAX_DEPTH);
    assert!(!mb.try_vault(Point::new(35, 20), &field));
    assert!(mb.map.tiles.iter().all(|t| *t == TileType::Floor));
    assert_eq!(mb.monster_spawns, spawns);
    assert!(mb.try_vault(Point::new(60, 30), &field));
    assert_eq!(mb.map.tiles, stamp(&TileGrid::new().tiles, Point::new(60, 30)));
    assert_eq!(mb.monster_spawns, vault_spawns(&spawns, Point::new(60, 30)));
    assert_playable(&mb);
}

#[test]
fn a_vault_that_would_bury_the_start_is_not_put() {
    let mut mb = MapBuilder::blank();
    // A wall from the top almost to the bottom makes the way around it long.
    mb.apply_vertical_tunnel(0, 48, 42);
    for y in 0..=48 {
        mb.map.tiles[map_idx(42, y)] = TileType::Wall;
    }
    // The start lies where the vault at (37, 20) has a wall.
    mb.player_start = Point::new(40, 21);
    mb.amulet_start = mb.find_most_distant();
    assert_eq!(mb.amulet_start, Point::new(79, 0));
    let before = mb.map.tiles.clone();
    let field = DistanceField::new(&vec![map_idx(40, 21)], &mb.map, MAX_DEPTH);
    assert!(place_suits(&field, Point::new(37, 20), mb.amulet_start));
    assert!(!mb.try_vault(Point::new(37, 20), &field));
    assert_eq!(mb.map.tiles, before);
    assert!(mb.try_vault(Point::new(37, 22), &field));
    assert_eq!(mb.map.tiles, stamp(&before, Point::new(37, 22)));
    assert_playable(&mb);
}

#[test]
fn the_prefab_keeps_the_level_playable() {
    let mut stamped = 0;
    for seed in 0..20u64 {
        let mut rng = RandomNumberGenerator::seeded(seed);
        let mut mb = (EmptyArchitect {}).new(&mut rng).unwrap();
        apply_prefab(&mut mb, &mut rng);
        assert_playable(&mb);
        if mb.map.tiles.iter().any(|t| *t == TileType::Wall) {
            stamped += 1;
            assert_eq!(mb.map.tiles.iter().filter(|t| **t == TileType::Wall).count(), 32);
        }
    }
    assert!(stamped > 0);
}

#[test]
fn the_random_walk_level_is_in_one_piece() {
    for seed in 0..4u64 {
        let mut rng = RandomNumberGenerator::seeded(seed);
        if let Ok(mb) = (DrunkardsWalkArchitect {}).new(&mut rng) {
            let field = DistanceField::new(&vec![map_idx(40, 25)], &mb.map, MAX_DEPTH);
            for (idx, t) in mb.map.tiles.iter().enumerate() {
                assert_eq!(*t != TileType::Wall, field.map[idx].is_some());
            }
        }
    }
}

#[test]
fn every_room_is_within_reach_of_every_other() {
    let mut rng = RandomNumberGenerator::seeded(31);
    let mb = (RoomsArchitect {}).new(&mut rng).unwrap();
    for a in mb.rooms.iter() {
        let from = a.center();
        let field = DistanceField::new(&vec![map_idx(from.x, from.y)], &mb.map, 5200);
        for b in mb.rooms.iter() {
            let to = b.center();
            assert!(field.map[map_idx(to.x, to.y)].is_some());
        }
    }
}

#[test]
fn room_placement_ends_well_with_every_room_in_place() {
    for seed in 0..5u64 {
        let mut mb = MapBuilder::blank();
        walls(&mut mb);
        let mut rng = RandomNumberGenerator::seeded(seed);
        assert_eq!(mb.build_random_rooms(&mut rng), Ok(()));
        assert_eq!(mb.rooms.len(), 20);
    }
}

#[test]
fn a_layout_of_rooms_ends_well_with_rooms_and_corridors() {
    let mut mb = MapBuilder::blank();
    let mut rng = RandomNumberGenerator::seeded(6);
    assert_eq!(dungeoncrawl::map_builder::rooms::lay_out(&mut mb, &mut rng), Ok(()));
    assert_eq!(mb.rooms.len(), 20);
    let first = mb.rooms[0].center();
    for room in mb.rooms.iter() {
        assert!(reaches(&mb, first, room.center()));
    }
    assert!(mb.map.tiles.iter().all(|t| *t != TileType::Exit));
}
