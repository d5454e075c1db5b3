use dungeoncrawl::geometry::{Point, Rect};
use dungeoncrawl::map::{direction, map_idx, TileGrid, TileType, NUM_TILES};

fn walled() -> TileGrid {
    let mut grid = TileGrid::new();
    for t in grid.tiles.iter_mut() {
        *t = TileType::Wall;
    }
    grid
}

#[test]
fn new_grid_is_all_floor_and_unrevealed() {
    let grid = TileGrid::new();
    assert_eq!(grid.tiles.len(), NUM_TILES);
    assert_eq!(grid.revealed_tiles.len(), NUM_TILES);
    assert!(grid.tiles.iter().all(|t| *t == TileType::Floor));
    assert!(grid.revealed_tiles.iter().all(|r| !*r));
}

#[test]
fn map_idx_is_row_major() {
    assert_eq!(map_idx(0, 0), 0);
    assert_eq!(map_idx(79, 0), 79);
    assert_eq!(map_idx(0, 1), 80);
    assert_eq!(map_idx(79, 49), 3999);
    assert_eq!(map_idx(3, 2), 163);
}

#[test]
fn bounds_and_try_idx() {
    let grid = TileGrid::new();
    assert!(grid.in_bounds(Point::new(0, 0)));
    assert!(grid.in_bounds(Point::new(79, 49)));
    assert!(!grid.in_bounds(Point::new(80, 0)));
    assert!(!grid.in_bounds(Point::new(0, 50)));
    assert!(!grid.in_bounds(Point::new(-1, 0)));
    assert!(!grid.in_bounds(Point::new(0, -1)));
    assert_eq!(grid.try_idx(Point::new(3, 2)), Some(163));
    assert_eq!(grid.try_idx(Point::new(-1, 2)), None);
    assert_eq!(grid.try_idx(Point::new(80, 2)), None);
}

#[test]
fn index_and_point_convert_both_ways() {
    let grid = TileGrid::new();
    assert_eq!(grid.index_to_point2d(163), Point::new(3, 2));
    assert_eq!(grid.index_to_point2d(3999), Point::new(79, 49));
    for idx in [0usize, 1, 79, 80, 81, 2040, 3999] {
        let p = grid.index_to_point2d(idx);
        assert_eq!(grid.point2d_to_index(p), idx);
    }
}

#[test]
fn walls_cannot_be_entered_but_floor_and_exit_can() {
    let mut grid = walled();
    grid.tiles[map_idx(5, 5)] = TileType::Floor;
    grid.tiles[map_idx(6, 5)] = TileType::Exit;
    assert!(grid.can_enter_tile(Point::new(5, 5)));
    assert!(grid.can_enter_tile(Point::new(6, 5)));
    assert!(!grid.can_enter_tile(Point::new(7, 5)));
    assert!(!grid.can_enter_tile(Point::new(-1, 5)));
    assert!(!grid.can_enter_tile(Point::new(5, 50)));
}

#[test]
fn only_walls_are_opaque() {
    let mut grid = walled();
    grid.tiles[10] = TileType::Floor;
    grid.tiles[11] = TileType::Exit;
    assert!(!grid.is_opaque(10));
    assert!(!grid.is_opaque(11));
    assert!(grid.is_opaque(12));
}

#[test]
fn valid_exit_gives_the_index_of_an_open_neighbour() {
    let mut grid = walled();
    grid.tiles[map_idx(5, 5)] = TileType::Floor;
    grid.tiles[map_idx(6, 5)] = TileType::Floor;
    assert_eq!(grid.valid_exit(Point::new(5, 5), Point::new(1, 0)), Some(map_idx(6, 5)));
    assert_eq!(grid.valid_exit(Point::new(5, 5), Point::new(-1, 0)), None);
    assert_eq!(grid.valid_exit(Point::new(0, 0), Point::new(-1, 0)), None);
    assert_eq!(grid.valid_exit(Point::new(79, 49), Point::new(0, 1)), None);
}

#[test]
fn exits_come_in_the_order_left_right_up_down() {
    let grid = TileGrid::new();
    let exits = grid.get_available_exits(map_idx(5, 5));
    assert_eq!(exits, vec![map_idx(4, 5), map_idx(6, 5), map_idx(5, 4), map_idx(5, 6)]);
    let corner = grid.get_available_exits(map_idx(0, 0));
    assert_eq!(corner, vec![map_idx(1, 0), map_idx(0, 1)]);
    let last = grid.get_available_exits(map_idx(79, 49));
    assert_eq!(last, vec![map_idx(78, 49), map_idx(79, 48)]);
}

#[test]
fn exits_leave_out_walls() {
    let mut grid = TileGrid::new();
    grid.tiles[map_idx(4, 5)] = TileType::Wall;
    grid.tiles[map_idx(5, 6)] = TileType::Wall;
    let exits = grid.get_available_exits(map_idx(5, 5));
    assert_eq!(exits, vec![map_idx(6, 5), map_idx(5, 4)]);
    let walled_in = walled().get_available_exits(map_idx(5, 5));
    assert_eq!(walled_in, Vec::<usize>::new());
}

#[test]
fn directions_are_left_right_up_down() {
    assert_eq!(direction(0), Point::new(-1, 0));
    assert_eq!(direction(1), Point::new(1, 0));
    assert_eq!(direction(2), Point::new(0, -1));
    assert_eq!(direction(3), Point::new(0, 1));
}

#[test]
fn rectangles_that_touch_intersect() {
    let a = Rect::with_size(1, 1, 4, 4);
    assert_eq!(a, Rect { x1: 1, x2: 5, y1: 1, y2: 5 });
    assert!(a.intersect(&Rect::with_size(5, 5, 2, 2)));
    assert!(a.intersect(&Rect::with_size(3, 3, 2, 2)));
    assert!(!a.intersect(&Rect::with_size(6, 1, 2, 2)));
    assert!(!a.intersect(&Rect::with_size(1, 6, 2, 2)));
}

#[test]
fn the_centre_of_a_rectangle_rounds_down() {
    assert_eq!(Rect::with_size(1, 1, 4, 4).center(), Point::new(3, 3));
    assert_eq!(Rect::with_size(2, 3, 3, 5).center(), Point::new(3, 5));
    assert_eq!(Rect::with_size(10, 20, 2, 2).center(), Point::new(11, 21));
}

#[test]
fn a_rectangle_holds_its_left_and_top_edge_only() {
    let r = Rect::with_size(2, 3, 2, 2);
    assert!(r.point_in_rect(Point::new(2, 3)));
    assert!(r.point_in_rect(Point::new(3, 4)));
    assert!(!r.point_in_rect(Point::new(4, 3)));
    assert!(!r.point_in_rect(Point::new(2, 5)));
    assert!(!r.point_in_rect(Point::new(1, 3)));
}
