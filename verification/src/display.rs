//! What there is to draw: the tiles and the entities in the window, and
//! the figures of the display above them. How it is drawn is not decided here.

use vstd::prelude::*;
use crate::camera::Camera;
use crate::components::{Carried, ComponentsView, Entity, Health, Render};
use crate::geometry::Point;
use crate::map::{map_idx, on_grid, spec_map_idx, TileGrid, TileType, NUM_TILES};
use crate::map_builder::themes::{MapTheme, Theme};
use crate::systems::Defect;
use crate::world::{World, WorldView};

verus! {

/// A tile to draw.
#[derive(Clone, Copy, Debug, PartialEq, Eq, Structural)]
pub struct MapCell {
    /// Where in the window the tile is drawn.
    pub screen: Point,
    /// The glyph that the theme gives the tile.
    pub glyph: char,
    /// Whether the player sees the tile now, or has only seen it before.
    pub in_view: bool,
}

/// An entity to draw.
#[derive(Clone, Copy, Debug, PartialEq, Eq, Structural)]
pub struct EntityCell {
    /// Where in the window the entity is drawn.
    pub screen: Point,
    pub render: Render,
}

/// The figures of the display.
#[derive(Clone, Debug, PartialEq, Eq)]
pub struct Hud {
    /// The health of the player, if it has any.
    pub health: Option<Health>,
    /// The names of the items in the pack, in the order of their places.
    pub items: Vec<String>,
    /// The number of levels that lie behind.
    pub map_level: u32,
}

/// The glyph that a theme gives a tile.
pub open spec fn spec_glyph(theme: Theme, tile: TileType) -> char {
    match theme {
        Theme::Dungeon => crate::map_builder::themes::dungeon_glyph(tile),
        Theme::Forest => crate::map_builder::themes::forest_glyph(tile),
    }
}

/// What the player sees: the tiles in the field of view of the player, if
/// there is a player with a field of view that has an entry for every tile.
pub open spec fn player_view(w: WorldView) -> Option<Seq<bool>> {
    match w.player() {
        Some(player) => match w.get(player).field_of_view {
            Some(fov) => if fov.visible_tiles.len() == NUM_TILES {
                Some(fov.visible_tiles)
            } else {
                None
            },
            None => None,
        },
        None => None,
    }
}

/// Whether the tile at `(x, y)` is drawn: it lies on the grid and is seen or was seen.
pub open spec fn shown(revealed: Seq<bool>, visible: Seq<bool>, x: int, y: int) -> bool {
    on_grid(x, y) && (visible[spec_map_idx(x, y)] || revealed[spec_map_idx(x, y)])
}

/// The cells of row `y` of the window from its left edge up to column `x`.
pub open spec fn row_cells(
    tiles: Seq<TileType>,
    revealed: Seq<bool>,
    visible: Seq<bool>,
    camera: Camera,
    theme: Theme,
    y: int,
    x: int,
) -> Seq<MapCell>
    decreases x - camera.left_x,
{
    if x <= camera.left_x {
        Seq::empty()
    } else {
        let before = row_cells(tiles, revealed, visible, camera, theme, y, x - 1);
        if shown(revealed, visible, x - 1, y) {
            before.push(
                MapCell {
                    screen: Point {
                        x: (x - 1 - camera.left_x) as i32,
                        y: (y - camera.top_y) as i32,
                    },
                    glyph: spec_glyph(theme, tiles[spec_map_idx(x - 1, y)]),
                    in_view: visible[spec_map_idx(x - 1, y)],
                },
            )
        } else {
            before
        }
    }
}

/// The cells of the rows of the window from its top edge up to row `y`.
pub open spec fn window_cells(
    tiles: Seq<TileType>,
    revealed: Seq<bool>,
    visible: Seq<bool>,
    camera: Camera,
    theme: Theme,
    y: int,
) -> Seq<MapCell>
    decreases y - camera.top_y,
{
    if y <= camera.top_y {
        Seq::empty()
    } else {
        window_cells(tiles, revealed, visible, camera, theme, y - 1) + row_cells(
            tiles,
            revealed,
            visible,
            camera,
            theme,
            y - 1,
            camera.right_x as int,
        )
    }
}

/// Whether a row is drawn: it has a position and a look, and stands on a tile that is in view.
pub open spec fn row_shown(row: Option<ComponentsView>, visible: Seq<bool>) -> bool {
    match row {
        Some(c) => c.position.is_some() && c.render.is_some() && on_grid(
            c.position.unwrap().x as int,
            c.position.unwrap().y as int,
        ) && visible[spec_map_idx(c.position.unwrap().x as int, c.position.unwrap().y as int)],
        None => false,
    }
}

/// The entities to draw among the first `n` rows.
pub open spec fn entity_cells(w: WorldView, visible: Seq<bool>, camera: Camera, n: int) -> Seq<
    EntityCell,
>
    decreases n,
{
    if n <= 0 {
        Seq::empty()
    } else {
        let before = entity_cells(w, visible, camera, n - 1);
        if row_shown(w.entries[n - 1], visible) {
            let c = w.entries[n - 1].unwrap();
            before.push(
                EntityCell {
                    screen: Point {
                        x: (c.position.unwrap().x - camera.left_x) as i32,
                        y: (c.position.unwrap().y - camera.top_y) as i32,
                    },
                    render: c.render.unwrap(),
                },
            )
        } else {
            before
        }
    }
}

/// Whether a row is a named item in the pack of `owner`.
pub open spec fn listed(row: Option<ComponentsView>, owner: Entity) -> bool {
    match row {
        Some(c) => c.item && c.name.is_some() && c.carried == Some(Carried(owner)),
        None => false,
    }
}

/// The names of the items among the first `n` rows that lie in the pack of `owner`.
pub open spec fn pack_names(w: WorldView, owner: Entity, n: int) -> Seq<Seq<char>>
    decreases n,
{
    if n <= 0 {
        Seq::empty()
    } else {
        let before = pack_names(w, owner, n - 1);
        if listed(w.entries[n - 1], owner) {
            before.push(w.entries[n - 1].unwrap().name.unwrap())
        } else {
            before
        }
    }
}

/// The names that a list of strings holds.
pub open spec fn names_of(items: Seq<String>) -> Seq<Seq<char>> {
    Seq::new(items.len(), |i: int| items[i]@)
}

/// The field of view of the player, if there is a player with one.
pub fn player_fov(ecs: &World) -> (r: Option<&Vec<bool>>)
    ensures
        match r {
            Some(visible) => player_view(ecs@) == Some(visible@),
            None => player_view(ecs@).is_none(),
        },
{
    match ecs.find_player() {
        Some(player) => match ecs.entry(player) {
            Some(c) => match &c.field_of_view {
                Some(fov) => if fov.visible_tiles.len() == NUM_TILES {
                    Some(&fov.visible_tiles)
                } else {
                    None
                },
                None => None,
            },
            None => None,
        },
        None => None,
    }
}

/// The tiles to draw: those in the window that the player sees or has
/// seen, row by row. Needs a player with a field of view.
pub fn map_render(map: &TileGrid, camera: &Camera, theme: &Theme, ecs: &World) -> (r: Result<
    Vec<MapCell>,
    Defect,
>)
    requires
        map.wf(),
        camera.near(),
    ensures
        match r {
            Ok(cells) => player_view(ecs@).is_some() && cells@ == window_cells(
                map.tiles@,
                map.revealed_tiles@,
                player_view(ecs@).unwrap(),
                *camera,
                *theme,
                camera.bottom_y as int,
            ),
            Err(e) => e == Defect::NoPlayer && player_view(ecs@).is_none(),
        },
{
    let visible = match player_fov(ecs) {
        Some(visible) => visible,
        None => {
            return Err(Defect::NoPlayer);
        },
    };
    let mut cells: Vec<MapCell> = Vec::new();
    let mut y = camera.top_y;
    while y < camera.bottom_y
        invariant
            map.wf(),
            camera.near(),
            visible.len() == NUM_TILES,
            camera.top_y <= y,
            y <= camera.bottom_y || (camera.bottom_y < camera.top_y && y == camera.top_y),
            cells@ == window_cells(
                map.tiles@,
                map.revealed_tiles@,
                visible@,
                *camera,
                *theme,
                y as int,
            ),
        decreases camera.bottom_y - y,
    {
        let ghost above = cells@;
        let mut x = camera.left_x;
        while x < camera.right_x
            invariant
                map.wf(),
                camera.near(),
                visible.len() == NUM_TILES,
                camera.top_y <= y < camera.bottom_y,
                camera.left_x <= x,
                x <= camera.right_x || (camera.right_x < camera.left_x && x == camera.left_x),
                cells@ == above + row_cells(
                    map.tiles@,
                    map.revealed_tiles@,
                    visible@,
                    *camera,
                    *theme,
                    y as int,
                    x as int,
                ),
            decreases camera.right_x - x,
        {
            let pt = Point::new(x, y);
            if map.in_bounds(pt) {
                let idx = map_idx(x, y);
                if visible[idx] || map.revealed_tiles[idx] {
                    cells.push(
                        MapCell {
                            screen: Point::new(x - camera.left_x, y - camera.top_y),
                            glyph: theme.tile_to_render(map.tiles[idx]),
                            in_view: visible[idx],
                        },
                    );
                }
            }
            assert(cells@ =~= above + row_cells(
                map.tiles@,
                map.revealed_tiles@,
                visible@,
                *camera,
                *theme,
                y as int,
                x + 1,
            ));
            x = x + 1;
        }
        proof {
            if camera.right_x < camera.left_x {
                assert(row_cells(
                    map.tiles@,
                    map.revealed_tiles@,
                    visible@,
                    *camera,
                    *theme,
                    y as int,
                    camera.right_x as int,
                ) =~= Seq::empty());
                assert(cells@ =~= above + Seq::<MapCell>::empty());
            }
        }
        y = y + 1;
    }
    proof {
        if camera.bottom_y < camera.top_y {
            assert(window_cells(
                map.tiles@,
                map.revealed_tiles@,
                visible@,
                *camera,
                *theme,
                camera.bottom_y as int,
            ) =~= Seq::empty());
        }
    }
    Ok(cells)
}

/// The entities to draw: those that have a look and stand where the
/// player sees, in the order of the rows. Needs a player with a field of view.
pub fn entity_render(camera: &Camera, ecs: &World) -> (r: Result<Vec<EntityCell>, Defect>)
    requires
        camera.near(),
    ensures
        match r {
            Ok(cells) => player_view(ecs@).is_some() && cells@ == entity_cells(
                ecs@,
                player_view(ecs@).unwrap(),
                *camera,
                ecs@.entries.len() as int,
            ),
            Err(e) => e == Defect::NoPlayer && player_view(ecs@).is_none(),
        },
{
    let visible = match player_fov(ecs) {
        Some(visible) => visible,
        None => {
            return Err(Defect::NoPlayer);
        },
    };
    let mut cells: Vec<EntityCell> = Vec::new();
    let mut i: usize = 0;
    while i < ecs.entries.len()
        invariant
            camera.near(),
            visible.len() == NUM_TILES,
            i <= ecs.entries.len(),
            cells@ == entity_cells(ecs@, visible@, *camera, i as int),
        decreases ecs.entries.len() - i,
    {
        let shown = match &ecs.entries[i] {
            Some(c) => match (c.position, c.render) {
                (Some(pos), Some(render)) => if pos.x >= 0 && pos.x < crate::map::SCREEN_WIDTH
                    && pos.y >= 0 && pos.y < crate::map::SCREEN_HEIGHT && visible[map_idx(
                    pos.x,
                    pos.y,
                )] {
                    Some((pos, render))
                } else {
                    None
                },
                _ => None,
            },
            None => None,
        };
        assert(shown.is_some() == row_shown(ecs@.entries[i as int], visible@));
        if let Some((pos, render)) = shown {
            cells.push(
                EntityCell {
                    screen: Point::new(pos.x - camera.left_x, pos.y - camera.top_y),
                    render,
                },
            );
        }
        i = i + 1;
    }
    Ok(cells)
}

/// The figures of the display: the health of the player, the names of the
/// items in the pack and the number of levels behind. Needs a player.
pub fn hud(ecs: &World) -> (r: Result<Hud, Defect>)
    ensures
        match r {
            Ok(hud) => {
                &&& ecs@.player().is_some()
                &&& hud.health == ecs@.get(ecs@.player().unwrap()).health
                &&& Some(hud.map_level) == (match ecs@.get(ecs@.player().unwrap()).player {
                    Some(p) => Some(p.map_level),
                    None => None,
                })
                &&& names_of(hud.items@) == pack_names(
                    ecs@,
                    ecs@.player().unwrap(),
                    ecs@.entries.len() as int,
                )
            },
            Err(e) => e == Defect::NoPlayer && ecs@.player().is_none(),
        },
{
    let player = match ecs.find_player() {
        Some(player) => player,
        None => {
            return Err(Defect::NoPlayer);
        },
    };
    let (health, map_level) = match ecs.entry(player) {
        Some(c) => (
            c.health,
            match c.player {
                Some(p) => p.map_level,
                None => 0,
            },
        ),
        None => (None, 0),
    };
    let mut items: Vec<String> = Vec::new();
    let mut i: usize = 0;
    while i < ecs.entries.len()
        invariant
            i <= ecs.entries.len(),
            names_of(items@) == pack_names(ecs@, player, i as int),
        decreases ecs.entries.len() - i,
    {
        let ghost before = items@;
        match &ecs.entries[i] {
            Some(c) => {
                if c.item {
                    match (&c.name, c.carried) {
                        (Some(name), Some(carried)) => {
                            if carried.0.0 == player.0 {
                                items.push(name.0.clone());
                            }
                        },
                        _ => {},
                    }
                }
            },
            None => {},
        }
        assert(names_of(items@) =~= pack_names(ecs@, player, i as int + 1));
        i = i + 1;
    }
    Ok(Hud { health, items, map_level })
}

} // verus!
