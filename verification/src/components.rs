//! What an entity can be made of.

use vstd::prelude::*;
use crate::geometry::Point;
use crate::map::NUM_TILES;

verus! {

/// The name of an entity: its row in the world's table. A name is never given twice.
#[derive(Clone, Copy, Debug, PartialEq, Eq, Hash, Structural)]
pub struct Entity(pub usize);

/// A colour by its red, green and blue parts.
#[derive(Clone, Copy, Debug, PartialEq, Eq, Structural)]
pub struct Rgb {
    pub r: u8,
    pub g: u8,
    pub b: u8,
}

/// A foreground and a background colour.
#[derive(Clone, Copy, Debug, PartialEq, Eq, Structural)]
pub struct ColorPair {
    pub fg: Rgb,
    pub bg: Rgb,
}

impl ColorPair {
    /// White on black.
    pub fn plain() -> (c: ColorPair)
        ensures
            c == (ColorPair { fg: Rgb { r: 255, g: 255, b: 255 }, bg: Rgb { r: 0, g: 0, b: 0 } }),
    {
        ColorPair { fg: Rgb { r: 255, g: 255, b: 255 }, bg: Rgb { r: 0, g: 0, b: 0 } }
    }
}

/// How an entity is drawn.
#[derive(Clone, Copy, Debug, PartialEq, Eq, Structural)]
pub struct Render {
    pub color: ColorPair,
    pub glyph: char,
}

/// Marks the player, and holds the number of levels that lie behind.
#[derive(Clone, Copy, Debug, PartialEq, Eq, Structural)]
pub struct Player {
    pub map_level: u32,
}

#[derive(Clone, Copy, Debug, PartialEq, Eq, Structural)]
pub struct Enemy;

#[derive(Clone, Copy, Debug, PartialEq, Eq, Structural)]
pub struct MovingRandomly;

#[derive(Clone, Copy, Debug, PartialEq, Eq, Structural)]
pub struct ChasingPlayer;

/// The intent of `entity` to stand on `destination`.
#[derive(Clone, Copy, Debug, PartialEq, Eq, Structural)]
pub struct WantsToMove {
    pub entity: Entity,
    pub destination: Point,
}

/// The intent of `attacker` to hit `victim`.
#[derive(Clone, Copy, Debug, PartialEq, Eq, Structural)]
pub struct WantsToAttack {
    pub attacker: Entity,
    pub victim: Entity,
}

#[derive(Clone, Copy, Debug, PartialEq, Eq, Structural)]
pub struct Health {
    pub current: i32,
    pub max: i32,
}

#[derive(Clone, Debug, PartialEq, Eq)]
pub struct Name(pub String);

#[derive(Clone, Copy, Debug, PartialEq, Eq, Structural)]
pub struct Item;

#[derive(Clone, Copy, Debug, PartialEq, Eq, Structural)]
pub struct AmuletOfYala;

#[derive(Clone, Copy, Debug, PartialEq, Eq, Structural)]
pub struct Weapon;

/// The damage that an entity deals with its hands, or that a weapon adds.
#[derive(Clone, Copy, Debug, PartialEq, Eq, Structural)]
pub struct Damage(pub i32);

#[derive(Clone, Copy, Debug, PartialEq, Eq, Structural)]
pub struct ProvidesHealing {
    pub amount: i32,
}

#[derive(Clone, Copy, Debug, PartialEq, Eq, Structural)]
pub struct ProvidesDungeonMap;

/// Marks an item that lies in the pack of the entity named.
#[derive(Clone, Copy, Debug, PartialEq, Eq, Structural)]
pub struct Carried(pub Entity);

/// The intent of `used_by` to use `item`.
#[derive(Clone, Copy, Debug, PartialEq, Eq, Structural)]
pub struct ActivateItem {
    pub used_by: Entity,
    pub item: Entity,
}

/// What an entity sees: for each tile of the grid whether it is in view,
/// how far the entity sees, and whether the tiles in view are out of date.
#[derive(Clone, Debug, PartialEq, Eq)]
pub struct FieldOfView {
    pub visible_tiles: Vec<bool>,
    pub radius: i32,
    pub is_dirty: bool,
}

/// The mathematical model of a field of view.
pub ghost struct FieldOfViewView {
    pub visible_tiles: Seq<bool>,
    pub radius: i32,
    pub is_dirty: bool,
}

impl View for FieldOfView {
    type V = FieldOfViewView;

    open spec fn view(&self) -> FieldOfViewView {
        FieldOfViewView {
            visible_tiles: self.visible_tiles@,
            radius: self.radius,
            is_dirty: self.is_dirty,
        }
    }
}

/// No tile of the grid.
pub open spec fn no_tiles() -> Seq<bool> {
    Seq::new(NUM_TILES as nat, |i: int| false)
}

/// Every tile of the grid.
pub open spec fn all_tiles() -> Seq<bool> {
    Seq::new(NUM_TILES as nat, |i: int| true)
}

impl FieldOfViewView {
    /// The field of view with nothing in view and marked out of date.
    pub open spec fn dirty(self) -> FieldOfViewView {
        FieldOfViewView { visible_tiles: no_tiles(), radius: self.radius, is_dirty: true }
    }
}

impl FieldOfView {
    pub open spec fn wf(&self) -> bool {
        self.visible_tiles.len() == NUM_TILES
    }

    pub fn new(radius: i32) -> (fov: FieldOfView)
        ensures
            fov.wf(),
            fov@ == (FieldOfViewView { visible_tiles: no_tiles(), radius, is_dirty: true }),
    {
        let fov = FieldOfView { visible_tiles: vec![false; NUM_TILES], radius, is_dirty: true };
        assert(fov.visible_tiles@ =~= no_tiles());
        fov
    }

    pub fn clone_dirty(&self) -> (fov: FieldOfView)
        ensures
            fov.wf(),
            fov@ == self@.dirty(),
    {
        let fov = FieldOfView {
            visible_tiles: vec![false; NUM_TILES],
            radius: self.radius,
            is_dirty: true,
        };
        assert(fov.visible_tiles@ =~= no_tiles());
        fov
    }

    /// Whether the tile with the index `idx` is in view.
    pub fn is_visible(&self, idx: usize) -> (b: bool)
        ensures
            b == (idx < self.visible_tiles.len() && self.visible_tiles[idx as int]),
    {
        idx < self.visible_tiles.len() && self.visible_tiles[idx]
    }
}

/// The components of one entity. A component that the entity lacks is
/// `None`, a tag that it lacks is `false`.
#[derive(Clone, Debug, PartialEq, Eq)]
pub struct Components {
    pub position: Option<Point>,
    pub render: Option<Render>,
    pub health: Option<Health>,
    pub name: Option<Name>,
    pub field_of_view: Option<FieldOfView>,
    pub player: Option<Player>,
    pub damage: Option<Damage>,
    pub healing: Option<ProvidesHealing>,
    pub carried: Option<Carried>,
    pub enemy: bool,
    pub chasing_player: bool,
    pub moving_randomly: bool,
    pub item: bool,
    pub amulet_of_yala: bool,
    pub dungeon_map: bool,
    pub weapon: bool,
}

/// The mathematical model of the components of one entity.
pub ghost struct ComponentsView {
    pub position: Option<Point>,
    pub render: Option<Render>,
    pub health: Option<Health>,
    pub name: Option<Seq<char>>,
    pub field_of_view: Option<FieldOfViewView>,
    pub player: Option<Player>,
    pub damage: Option<Damage>,
    pub healing: Option<ProvidesHealing>,
    pub carried: Option<Carried>,
    pub enemy: bool,
    pub chasing_player: bool,
    pub moving_randomly: bool,
    pub item: bool,
    pub amulet_of_yala: bool,
    pub dungeon_map: bool,
    pub weapon: bool,
}

impl View for Components {
    type V = ComponentsView;

    open spec fn view(&self) -> ComponentsView {
        ComponentsView {
            position: self.position,
            render: self.render,
            health: self.health,
            name: match self.name {
                Some(name) => Some(name.0@),
                None => None,
            },
            field_of_view: match self.field_of_view {
                Some(fov) => Some(fov@),
                None => None,
            },
            player: self.player,
            damage: self.damage,
            healing: self.healing,
            carried: self.carried,
            enemy: self.enemy,
            chasing_player: self.chasing_player,
            moving_randomly: self.moving_randomly,
            item: self.item,
            amulet_of_yala: self.amulet_of_yala,
            dungeon_map: self.dungeon_map,
            weapon: self.weapon,
        }
    }
}

impl ComponentsView {
    /// The components of an entity that has none.
    pub open spec fn empty() -> ComponentsView {
        ComponentsView {
            position: None,
            render: None,
            health: None,
            name: None,
            field_of_view: None,
            player: None,
            damage: None,
            healing: None,
            carried: None,
            enemy: false,
            chasing_player: false,
            moving_randomly: false,
            item: false,
            amulet_of_yala: false,
            dungeon_map: false,
            weapon: false,
        }
    }
}

impl Components {
    /// The field of view, where there is one, has an entry for every tile.
    pub open spec fn wf(&self) -> bool {
        match self.field_of_view {
            Some(fov) => fov.wf(),
            None => true,
        }
    }

    /// The components of an entity that has none.
    pub fn empty() -> (c: Components)
        ensures
            c.wf(),
            c@ == ComponentsView::empty(),
    {
        Components {
            position: None,
            render: None,
            health: None,
            name: None,
            field_of_view: None,
            player: None,
            damage: None,
            healing: None,
            carried: None,
            enemy: false,
            chasing_player: false,
            moving_randomly: false,
            item: false,
            amulet_of_yala: false,
            dungeon_map: false,
            weapon: false,
        }
    }
}

} // verus!
