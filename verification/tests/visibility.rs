use dungeoncrawl::geometry::Point;
use dungeoncrawl::map::{map_idx, TileGrid, TileType, NUM_TILES};
use dungeoncrawl::visibility::{
    chebyshev, field_of_view_set, in_radius, line_of_sight, step_along,
};

fn seen(visible: &Vec<bool>) -> Vec<usize> {
    (0..NUM_TILES).filter(|i| visible[*i]).collect()
}

#[test]
fn in_the_open_everything_within_the_radius_is_seen() {
    let grid = TileGrid::new();
    let visible = field_of_view_set(Point::new(10, 10), 2, &grid);
    assert_eq!(visible.len(), NUM_TILES);
    let mut expected = Vec::new();
    for y in 0..50i32 {
        for x in 0..80i32 {
            if (x - 10) * (x - 10) + (y - 10) * (y - 10) <= 4 {
                expected.push(map_idx(x, y));
            }
        }
    }
    assert_eq!(expected.len(), 13);
    assert_eq!(seen(&visible), expected);
}

#[test]
fn a_radius_of_zero_shows_the_own_tile_only() {
    let grid = TileGrid::new();
    assert_eq!(seen(&field_of_view_set(Point::new(3, 4), 0, &grid)), vec![map_idx(3, 4)]);
}

#[test]
fn a_negative_radius_counts_by_its_size() {
    let grid = TileGrid::new();
    assert_eq!(
        field_of_view_set(Point::new(20, 20), -3, &grid),
        field_of_view_set(Point::new(20, 20), 3, &grid)
    );
}

#[test]
fn the_view_ends_at_the_edge_of_the_grid() {
    let grid = TileGrid::new();
    let visible = field_of_view_set(Point::new(0, 0), 1, &grid);
    assert_eq!(seen(&visible), vec![map_idx(0, 0), map_idx(1, 0), map_idx(0, 1)]);
}

#[test]
fn a_wall_is_seen_and_hides_what_lies_behind_it() {
    let mut grid = TileGrid::new();
    grid.tiles[map_idx(11, 10)] = TileType::Wall;
    let visible = field_of_view_set(Point::new(10, 10), 5, &grid);
    assert!(visible[map_idx(10, 10)]);
    assert!(visible[map_idx(11, 10)]);
    assert!(!visible[map_idx(12, 10)]);
    assert!(!visible[map_idx(13, 10)]);
    assert!(!visible[map_idx(15, 10)]);
    assert!(visible[map_idx(9, 10)]);
    assert!(visible[map_idx(5, 10)]);
    assert!(visible[map_idx(10, 15)]);
    assert!(visible[map_idx(11, 11)]);
    assert!(!visible[map_idx(16, 10)]);
}

#[test]
fn a_closed_room_shows_its_walls_and_nothing_beyond() {
    let mut grid = TileGrid::new();
    for i in 8..=12 {
        grid.tiles[map_idx(i, 8)] = TileType::Wall;
        grid.tiles[map_idx(i, 12)] = TileType::Wall;
        grid.tiles[map_idx(8, i)] = TileType::Wall;
        grid.tiles[map_idx(12, i)] = TileType::Wall;
    }
    let visible = field_of_view_set(Point::new(10, 10), 8, &grid);
    for y in 0..50i32 {
        for x in 0..80i32 {
            let inside = (9..=11).contains(&x) && (9..=11).contains(&y);
            let outside = !(8..=12).contains(&x) || !(8..=12).contains(&y);
            if inside {
                assert!(visible[map_idx(x, y)], "inside at ({}, {})", x, y);
            }
            if outside {
                assert!(!visible[map_idx(x, y)], "outside at ({}, {})", x, y);
            }
        }
    }
    assert!(visible[map_idx(10, 8)]);
    assert!(visible[map_idx(12, 10)]);
    assert!(visible[map_idx(8, 8)]);
}

#[test]
fn the_line_is_walked_along_the_longer_axis() {
    let a = Point::new(10, 10);
    assert_eq!(chebyshev(a, Point::new(14, 12)), 4);
    assert_eq!(chebyshev(a, Point::new(9, 3)), 7);
    assert_eq!(chebyshev(a, a), 0);
    let b = Point::new(14, 12);
    assert_eq!(step_along(a, b, 0, 4), a);
    assert_eq!(step_along(a, b, 1, 4), Point::new(11, 11));
    assert_eq!(step_along(a, b, 2, 4), Point::new(12, 11));
    assert_eq!(step_along(a, b, 3, 4), Point::new(13, 12));
    assert_eq!(step_along(a, b, 4, 4), b);
    let c = Point::new(6, 8);
    assert_eq!(step_along(a, c, 1, 4), Point::new(9, 10));
    assert_eq!(step_along(a, c, 2, 4), Point::new(8, 9));
    assert_eq!(step_along(a, c, 3, 4), Point::new(7, 9));
    assert_eq!(step_along(a, c, 4, 4), c);
}

#[test]
fn the_ends_of_a_line_do_not_block_it() {
    let mut grid = TileGrid::new();
    grid.tiles[map_idx(10, 10)] = TileType::Wall;
    grid.tiles[map_idx(14, 10)] = TileType::Wall;
    assert!(line_of_sight(&grid, Point::new(10, 10), Point::new(14, 10)));
    grid.tiles[map_idx(12, 10)] = TileType::Wall;
    assert!(!line_of_sight(&grid, Point::new(10, 10), Point::new(14, 10)));
    assert!(line_of_sight(&grid, Point::new(10, 10), Point::new(12, 10)));
    assert!(line_of_sight(&grid, Point::new(10, 10), Point::new(11, 10)));
    assert!(line_of_sight(&grid, Point::new(10, 10), Point::new(10, 10)));
}

#[test]
fn the_radius_is_measured_as_the_crow_flies() {
    let a = Point::new(10, 10);
    assert!(in_radius(a, Point::new(13, 14), 5));
    assert!(!in_radius(a, Point::new(14, 14), 5));
    assert!(in_radius(a, Point::new(15, 10), 5));
    assert!(!in_radius(a, Point::new(16, 10), 5));
    assert!(in_radius(a, a, 0));
    assert!(in_radius(a, Point::new(79, 49), i32::MAX));
    assert!(in_radius(a, Point::new(79, 49), i32::MIN));
}
