//! The looks of a level: which glyph stands for which tile.

use vstd::prelude::*;
use crate::map::TileType;

verus! {

/// What a renderer asks of a theme.
pub trait MapTheme {
    /// The glyph that is drawn for a tile of the given type.
    fn tile_to_render(&self, tile_type: TileType) -> char;
}

#[derive(Clone, Copy, Debug, PartialEq, Eq, Structural)]
pub enum Theme {
    Dungeon,
    Forest,
}

impl Theme {
    /// The theme that a roll picks: the dungeon for 0, the forest else.
    pub open spec fn spec_pick(roll: int) -> Theme {
        if roll == 0 {
            Theme::Dungeon
        } else {
            Theme::Forest
        }
    }

    /// The theme that a roll picks: the dungeon for 0, the forest else.
    pub fn pick(roll: i32) -> (theme: Theme)
        ensures
            theme == Self::spec_pick(roll as int),
    {
        match roll {
            0 => DungeonTheme::new(),
            _ => ForestTheme::new(),
        }
    }
}

pub struct DungeonTheme {}

pub struct ForestTheme {}

impl DungeonTheme {
    pub fn new() -> (theme: Theme)
        ensures
            theme == Theme::Dungeon,
    {
        Theme::Dungeon
    }
}

impl ForestTheme {
    pub fn new() -> (theme: Theme)
        ensures
            theme == Theme::Forest,
    {
        Theme::Forest
    }
}

impl MapTheme for DungeonTheme {
    fn tile_to_render(&self, tile_type: TileType) -> (glyph: char)
        ensures
            glyph == dungeon_glyph(tile_type),
    {
        match tile_type {
            TileType::Floor => '.',
            TileType::Wall => '#',
            TileType::Exit => '>',
        }
    }
}

impl MapTheme for ForestTheme {
    fn tile_to_render(&self, tile_type: TileType) -> (glyph: char)
        ensures
            glyph == forest_glyph(tile_type),
    {
        match tile_type {
            TileType::Floor => ';',
            TileType::Wall => '"',
            TileType::Exit => '>',
        }
    }
}

impl MapTheme for Theme {
    fn tile_to_render(&self, tile_type: TileType) -> (glyph: char)
        ensures
            glyph == (match self {
                Theme::Dungeon => dungeon_glyph(tile_type),
                Theme::Forest => forest_glyph(tile_type),
            }),
    {
        match self {
            Theme::Dungeon => (DungeonTheme {  }).tile_to_render(tile_type),
            Theme::Forest => (ForestTheme {  }).tile_to_render(tile_type),
        }
    }
}

pub open spec fn dungeon_glyph(tile_type: TileType) -> char {
    match tile_type {
        TileType::Floor => '.',
        TileType::Wall => '#',
        TileType::Exit => '>',
    }
}

pub open spec fn forest_glyph(tile_type: TileType) -> char {
    match tile_type {
        TileType::Floor => ';',
        TileType::Wall => '"',
        TileType::Exit => '>',
    }
}

} // verus!
