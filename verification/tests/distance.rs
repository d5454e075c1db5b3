use dungeoncrawl::distance::{nearer, DistanceField};
use dungeoncrawl::map::{map_idx, TileGrid, TileType, NUM_TILES};

fn walled_grid() -> TileGrid {
    let mut grid = TileGrid::new();
    for t in grid.tiles.iter_mut() {
        *t = TileType::Wall;
    }
    grid
}

#[test]
fn open_grid_distances_are_manhattan_distances() {
    let grid = TileGrid::new();
    let field = DistanceField::new(&vec![map_idx(40, 25)], &grid, 1024);
    assert_eq!(field.map.len(), NUM_TILES);
    for y in 0..50i32 {
        for x in 0..80i32 {
            let expected = ((x - 40).abs() + (y - 25).abs()) as u32;
            assert_eq!(field.map[map_idx(x, y)], Some(expected), "at ({}, {})", x, y);
        }
    }
}

#[test]
fn distances_beyond_the_cutoff_are_not_recorded() {
    let grid = TileGrid::new();
    let field = DistanceField::new(&vec![map_idx(40, 25)], &grid, 10);
    for y in 0..50i32 {
        for x in 0..80i32 {
            let apart = ((x - 40).abs() + (y - 25).abs()) as u32;
            let expected = if apart <= 10 { Some(apart) } else { None };
            assert_eq!(field.map[map_idx(x, y)], expected, "at ({}, {})", x, y);
        }
    }
    assert_eq!(field.map[map_idx(50, 25)], Some(10));
    assert_eq!(field.map[map_idx(51, 25)], None);
}

#[test]
fn a_cutoff_of_zero_reaches_the_sources_only() {
    let grid = TileGrid::new();
    let field = DistanceField::new(&vec![map_idx(3, 3)], &grid, 0);
    assert_eq!(field.map[map_idx(3, 3)], Some(0));
    assert_eq!(field.map.iter().filter(|d| d.is_some()).count(), 1);
}

#[test]
fn walls_are_walked_around() {
    // A corridor in the shape of a U: down column 2, along row 6, up column 6.
    let mut grid = walled_grid();
    for y in 2..=6 {
        grid.tiles[map_idx(2, y)] = TileType::Floor;
        grid.tiles[map_idx(6, y)] = TileType::Floor;
    }
    for x in 2..=6 {
        grid.tiles[map_idx(x, 6)] = TileType::Floor;
    }
    let field = DistanceField::new(&vec![map_idx(2, 2)], &grid, 1024);
    assert_eq!(field.map[map_idx(2, 2)], Some(0));
    assert_eq!(field.map[map_idx(2, 6)], Some(4));
    assert_eq!(field.map[map_idx(6, 6)], Some(8));
    assert_eq!(field.map[map_idx(6, 2)], Some(12));
    assert_eq!(field.map[map_idx(4, 2)], None);
    assert_eq!(field.map[map_idx(3, 2)], None);
    assert_eq!(field.map[map_idx(40, 25)], None);
}

#[test]
fn the_nearest_of_several_sources_counts() {
    let grid = TileGrid::new();
    let field = DistanceField::new(&vec![map_idx(0, 0), map_idx(10, 0)], &grid, 1024);
    assert_eq!(field.map[map_idx(0, 0)], Some(0));
    assert_eq!(field.map[map_idx(10, 0)], Some(0));
    assert_eq!(field.map[map_idx(5, 0)], Some(5));
    assert_eq!(field.map[map_idx(4, 0)], Some(4));
    assert_eq!(field.map[map_idx(7, 0)], Some(3));
    assert_eq!(field.map[map_idx(7, 2)], Some(5));
}

#[test]
fn a_source_in_a_wall_counts_and_a_source_off_the_grid_does_not() {
    let mut grid = walled_grid();
    grid.tiles[map_idx(5, 5)] = TileType::Floor;
    let field = DistanceField::new(&vec![map_idx(4, 5), NUM_TILES, usize::MAX], &grid, 1024);
    assert_eq!(field.map[map_idx(4, 5)], Some(0));
    assert_eq!(field.map[map_idx(5, 5)], Some(1));
    assert_eq!(field.map.iter().filter(|d| d.is_some()).count(), 2);
    let none = DistanceField::new(&Vec::new(), &grid, 1024);
    assert!(none.map.iter().all(|d| d.is_none()));
}

#[test]
fn the_same_source_twice_changes_nothing() {
    let grid = TileGrid::new();
    let once = DistanceField::new(&vec![map_idx(7, 7)], &grid, 20);
    let twice = DistanceField::new(&vec![map_idx(7, 7), map_idx(7, 7)], &grid, 20);
    assert_eq!(once.map, twice.map);
}

#[test]
fn the_lowest_exit_leads_towards_the_source() {
    let grid = TileGrid::new();
    let field = DistanceField::new(&vec![map_idx(10, 10)], &grid, 1024);
    assert_eq!(
        DistanceField::find_lowest_exit(&field, map_idx(15, 10), &grid),
        Some(map_idx(14, 10))
    );
    assert_eq!(
        DistanceField::find_lowest_exit(&field, map_idx(10, 15), &grid),
        Some(map_idx(10, 14))
    );
    assert_eq!(
        DistanceField::find_lowest_exit(&field, map_idx(5, 10), &grid),
        Some(map_idx(6, 10))
    );
    assert_eq!(
        DistanceField::find_lowest_exit(&field, map_idx(10, 5), &grid),
        Some(map_idx(10, 6))
    );
}

#[test]
fn among_equal_exits_the_first_in_order_is_taken() {
    let grid = TileGrid::new();
    let field = DistanceField::new(&vec![map_idx(10, 10)], &grid, 1024);
    // From (12, 12) left and up are both 3 steps from the source; left comes first.
    assert_eq!(
        DistanceField::find_lowest_exit(&field, map_idx(12, 12), &grid),
        Some(map_idx(11, 12))
    );
    // From (8, 12) right and up are equal; right comes before up.
    assert_eq!(
        DistanceField::find_lowest_exit(&field, map_idx(8, 12), &grid),
        Some(map_idx(9, 12))
    );
    // From the source itself every exit is one step away; left comes first.
    assert_eq!(
        DistanceField::find_lowest_exit(&field, map_idx(10, 10), &grid),
        Some(map_idx(9, 10))
    );
}

#[test]
fn unreached_exits_are_taken_when_there_is_nothing_better() {
    let mut grid = walled_grid();
    grid.tiles[map_idx(5, 5)] = TileType::Floor;
    grid.tiles[map_idx(6, 5)] = TileType::Floor;
    grid.tiles[map_idx(5, 6)] = TileType::Floor;
    let field = DistanceField::new(&vec![map_idx(40, 25)], &grid, 1024);
    assert_eq!(
        DistanceField::find_lowest_exit(&field, map_idx(5, 5), &grid),
        Some(map_idx(6, 5))
    );
    assert_eq!(DistanceField::find_lowest_exit(&field, map_idx(20, 20), &grid), None);
}

#[test]
fn the_most_distant_tile_is_the_last_of_the_furthest() {
    let grid = TileGrid::new();
    let field = DistanceField::new(&vec![map_idx(40, 25)], &grid, 1024);
    assert_eq!(field.most_distant(), Some(map_idx(0, 0)));
    let centred = DistanceField::new(&vec![map_idx(40, 25)], &grid, 3);
    // With a cutoff of 3 the furthest tiles are 3 steps away; the last of them in
    // row-major order lies straight below the source.
    assert_eq!(centred.most_distant(), Some(map_idx(40, 28)));
    let nothing = DistanceField::new(&Vec::new(), &grid, 1024);
    assert_eq!(nothing.most_distant(), None);
}

#[test]
fn an_unreached_tile_is_never_nearer() {
    assert!(nearer(Some(3), Some(4)));
    assert!(!nearer(Some(4), Some(4)));
    assert!(!nearer(Some(5), Some(4)));
    assert!(nearer(Some(u32::MAX), None));
    assert!(!nearer(None, Some(0)));
    assert!(!nearer(None, None));
}
