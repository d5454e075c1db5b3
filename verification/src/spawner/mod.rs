//! Spawning: the entities that a level starts with.

use vstd::prelude::*;
use bracket_random::prelude::RandomNumberGenerator;
use crate::components::{
    ColorPair, Components, ComponentsView, Damage, FieldOfView, FieldOfViewView, Health, Name,
    Player, Render, no_tiles,
};
use crate::geometry::Point;
use crate::rng::roll_dice;
use crate::systems::Defect;
use crate::world::{CommandView, World};

pub mod template;

verus! {

/// How an entity with the given glyph is drawn.
pub open spec fn plain_render(glyph: char) -> Render {
    Render {
        color: ColorPair {
            fg: crate::components::Rgb { r: 255, g: 255, b: 255 },
            bg: crate::components::Rgb { r: 0, g: 0, b: 0 },
        },
        glyph,
    }
}

/// The player as it enters the first level at `pos`.
pub open spec fn player_components(pos: Point) -> ComponentsView {
    ComponentsView {
        player: Some(Player { map_level: 0 }),
        position: Some(pos),
        render: Some(plain_render('@')),
        health: Some(Health { current: 10, max: 10 }),
        field_of_view: Some(FieldOfViewView { visible_tiles: no_tiles(), radius: 8, is_dirty: true }),
        damage: Some(Damage(1)),
        ..ComponentsView::empty()
    }
}

pub fn spawn_player(ecs: &mut World, pos: Point)
    requires
        old(ecs).wf(),
    ensures
        final(ecs).wf(),
        final(ecs)@ == old(ecs)@.apply(CommandView::Push(player_components(pos))),
{
    let mut c = Components::empty();
    c.player = Some(Player { map_level: 0 });
    c.position = Some(pos);
    c.render = Some(Render { color: ColorPair::plain(), glyph: '@' });
    c.health = Some(Health { current: 10, max: 10 });
    c.field_of_view = Some(FieldOfView::new(8));
    c.damage = Some(Damage(1));
    ecs.push(c);
}

/// The amulet as it lies at `pos`.
pub open spec fn amulet_components(pos: Point) -> ComponentsView {
    ComponentsView {
        item: true,
        amulet_of_yala: true,
        position: Some(pos),
        render: Some(plain_render('|')),
        name: Some("Amulet of Yala"@),
        ..ComponentsView::empty()
    }
}

pub fn spawn_amulet_of_yala(ecs: &mut World, pos: Point)
    requires
        old(ecs).wf(),
    ensures
        final(ecs).wf(),
        final(ecs)@ == old(ecs)@.apply(CommandView::Push(amulet_components(pos))),
{
    let mut c = Components::empty();
    c.item = true;
    c.amulet_of_yala = true;
    c.position = Some(pos);
    c.render = Some(Render { color: ColorPair::plain(), glyph: '|' });
    c.name = Some(Name("Amulet of Yala".to_string()));
    ecs.push(c);
}

/// The health, the name and the glyph of a goblin.
pub fn goblin() -> (r: (i32, String, char))
    ensures
        r.0 == 1,
        r.1@ == "Goblin"@,
        r.2 == 'g',
{
    (1, "Goblin".to_string(), 'g')
}

/// The health, the name and the glyph of an orc.
pub fn orc() -> (r: (i32, String, char))
    ensures
        r.0 == 2,
        r.1@ == "Orc"@,
        r.2 == 'o',
{
    (2, "Orc".to_string(), 'o')
}

/// The monster that a roll of a ten-sided die brings to `pos`: a goblin
/// for a roll up to eight, an orc else. Either chases the player.
pub open spec fn monster_components(pos: Point, roll: int) -> ComponentsView {
    let hp: i32 = if roll <= 8 {
        1
    } else {
        2
    };
    ComponentsView {
        enemy: true,
        position: Some(pos),
        render: Some(
            plain_render(
                if roll <= 8 {
                    'g'
                } else {
                    'o'
                },
            ),
        ),
        chasing_player: true,
        health: Some(Health { current: hp, max: hp }),
        name: Some(
            if roll <= 8 {
                "Goblin"@
            } else {
                "Orc"@
            },
        ),
        ..ComponentsView::empty()
    }
}

/// Spawns the monster that the given roll brings to `pos`.
pub fn spawn_rolled_monster(ecs: &mut World, roll: i32, pos: Point)
    requires
        old(ecs).wf(),
        1 <= roll <= 10,
    ensures
        final(ecs).wf(),
        final(ecs)@ == old(ecs)@.apply(CommandView::Push(monster_components(pos, roll as int))),
{
    let (hp, name, glyph) = if roll <= 8 {
        goblin()
    } else {
        orc()
    };
    let mut c = Components::empty();
    c.enemy = true;
    c.position = Some(pos);
    c.render = Some(Render { color: ColorPair::plain(), glyph });
    c.chasing_player = true;
    c.health = Some(Health { current: hp, max: hp });
    c.name = Some(Name(name));
    ecs.push(c);
}

/// Spawns a monster at `pos`, a goblin four times out of five and an orc else.
pub fn spawn_monster(ecs: &mut World, rng: &mut RandomNumberGenerator, pos: Point)
    requires
        old(ecs).wf(),
    ensures
        final(ecs).wf(),
        exists|roll: int|
            1 <= roll <= 10 && final(ecs)@ == old(ecs)@.apply(
                CommandView::Push(#[trigger] monster_components(pos, roll)),
            ),
{
    let roll = roll_dice(rng, 1, 10);
    spawn_rolled_monster(ecs, roll, pos);
}

/// Stocks a level with entities of the kinds that `template` holds for it.
pub fn spawn_level(
    ecs: &mut World,
    rng: &mut RandomNumberGenerator,
    level: usize,
    spawn_points: &Vec<Point>,
    template: &template::Templates,
) -> (r: Result<(), Defect>)
    requires
        old(ecs).wf(),
        template.entries(level) < i32::MAX,
    ensures
        final(ecs).wf(),
        template::stocked(old(ecs)@, final(ecs)@, template.entities@, level, spawn_points@),
        template.entries(level) == 0 ==> final(ecs)@ == old(ecs)@ && r.is_ok(),
        template.makeable(level) ==> r.is_ok(),
        r.is_ok() ==> template::fully_stocked(
            old(ecs)@,
            final(ecs)@,
            template.entities@,
            level,
            spawn_points@,
        ),
        r matches Err(e) ==> e == Defect::EnemyWithoutHealth,
{
    template.spawn_entities(ecs, rng, level, spawn_points)
}

} // verus!
