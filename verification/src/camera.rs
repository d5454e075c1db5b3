//! The window of the grid that is on display around the player.

use vstd::prelude::*;
use crate::geometry::Point;
use crate::map::TileGrid;

verus! {

/// The width of the window in tiles.
pub const DISPLAY_WIDTH: i32 = 40;

/// The height of the window in tiles.
pub const DISPLAY_HEIGHT: i32 = 25;

#[derive(Clone, Copy, Debug, PartialEq, Eq, Structural)]
pub struct Camera {
    pub left_x: i32,
    pub right_x: i32,
    pub top_y: i32,
    pub bottom_y: i32,
}

impl Camera {
    /// The window centred on `p`.
    pub open spec fn centered(p: Point) -> Camera {
        Camera {
            left_x: (p.x - 20) as i32,
            right_x: (p.x + 20) as i32,
            top_y: (p.y - 12) as i32,
            bottom_y: (p.y + 12) as i32,
        }
    }

    /// Whether the window lies so near to the grid that the places of
    /// its tiles in the window are numbers at hand.
    pub open spec fn near(&self) -> bool {
        &&& -1000 <= self.left_x <= 1000
        &&& -1000 <= self.right_x <= 1000
        &&& -1000 <= self.top_y <= 1000
        &&& -1000 <= self.bottom_y <= 1000
    }

    /// Whether the window lies near to the grid.
    pub fn is_near(&self) -> (b: bool)
        ensures
            b == self.near(),
    {
        -1000 <= self.left_x && self.left_x <= 1000 && -1000 <= self.right_x && self.right_x
            <= 1000 && -1000 <= self.top_y && self.top_y <= 1000 && -1000 <= self.bottom_y
            && self.bottom_y <= 1000
    }

    pub fn new(player_position: Point) -> (camera: Camera)
        requires
            TileGrid::spec_in_bounds(player_position),
        ensures
            camera == Self::centered(player_position),
            camera.near(),
    {
        Camera {
            left_x: player_position.x - DISPLAY_WIDTH / 2,
            right_x: player_position.x + DISPLAY_WIDTH / 2,
            top_y: player_position.y - DISPLAY_HEIGHT / 2,
            bottom_y: player_position.y + DISPLAY_HEIGHT / 2,
        }
    }

    pub fn on_player_move(&mut self, player_position: Point)
        requires
            TileGrid::spec_in_bounds(player_position),
        ensures
            *final(self) == Self::centered(player_position),
            final(self).near(),
    {
        self.left_x = player_position.x - DISPLAY_WIDTH / 2;
        self.right_x = player_position.x + DISPLAY_WIDTH / 2;
        self.top_y = player_position.y - DISPLAY_HEIGHT / 2;
        self.bottom_y = player_position.y + DISPLAY_HEIGHT / 2;
    }
}

} // verus!
