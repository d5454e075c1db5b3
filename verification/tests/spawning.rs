use bracket_random::prelude::RandomNumberGenerator;
use dungeoncrawl::components::{
    ColorPair, Damage, Entity, Health, Name, Player, ProvidesHealing, Render, Rgb,
};
use dungeoncrawl::geometry::Point;
use dungeoncrawl::spawner::template::{reads, EntityType, Template, Templates};
use dungeoncrawl::spawner::{
    goblin, orc, spawn_amulet_of_yala, spawn_level, spawn_monster, spawn_player,
    spawn_rolled_monster,
};
use dungeoncrawl::systems::Defect;
use dungeoncrawl::world::World;
use std::collections::HashSet;

fn levels(of: &[usize]) -> HashSet<usize> {
    of.iter().copied().collect()
}

fn kind(entity_type: EntityType, name: &str, glyph: char, on: &[usize], frequency: i32) -> Template {
    Template {
        entity_type,
        levels: levels(on),
        frequency,
        name: name.to_string(),
        glyph,
        provides: None,
        hp: None,
        base_damage: None,
    }
}

fn stock() -> Templates {
    let mut potion = kind(EntityType::Item, "Healing Potion", '!', &[0, 1, 2], 2);
    potion.provides = Some(vec![("Healing".to_string(), 6)]);
    let mut scroll = kind(EntityType::Item, "Dungeon Map", '{', &[0, 1, 2], 1);
    scroll.provides = Some(vec![("MagicMap".to_string(), 0)]);
    let mut sword = kind(EntityType::Item, "Rusty Sword", 's', &[0, 1, 2], 1);
    sword.base_damage = Some(1);
    let mut goblin = kind(EntityType::Enemy, "Goblin", 'g', &[0], 3);
    goblin.hp = Some(1);
    goblin.base_damage = Some(1);
    let mut ogre = kind(EntityType::Enemy, "Ogre", 'O', &[1, 2], 2);
    ogre.hp = Some(5);
    ogre.base_damage = Some(2);
    Templates { entities: vec![potion, scroll, sword, goblin, ogre] }
}

fn plain(glyph: char) -> Option<Render> {
    Some(Render {
        color: ColorPair { fg: Rgb { r: 255, g: 255, b: 255 }, bg: Rgb { r: 0, g: 0, b: 0 } },
        glyph,
    })
}

#[test]
fn the_player_is_spawned_in_full_health_with_open_eyes() {
    let mut world = World::new();
    spawn_player(&mut world, Point::new(7, 9));
    assert_eq!(world.len(), 1);
    let c = world.entry(Entity(0)).unwrap();
    assert_eq!(c.player, Some(Player { map_level: 0 }));
    assert_eq!(c.position, Some(Point::new(7, 9)));
    assert_eq!(c.render, plain('@'));
    assert_eq!(c.health, Some(Health { current: 10, max: 10 }));
    assert_eq!(c.damage, Some(Damage(1)));
    let fov = c.field_of_view.as_ref().unwrap();
    assert_eq!(fov.radius, 8);
    assert!(fov.is_dirty);
    assert!(fov.visible_tiles.iter().all(|v| !*v));
    assert!(!c.enemy && !c.item && !c.chasing_player);
    assert_eq!(c.name, None);
    assert_eq!(ColorPair::plain(), plain('@').unwrap().color);
}

#[test]
fn the_amulet_is_an_item_with_a_name() {
    let mut world = World::new();
    spawn_amulet_of_yala(&mut world, Point::new(3, 4));
    let c = world.entry(Entity(0)).unwrap();
    assert!(c.item && c.amulet_of_yala);
    assert_eq!(c.position, Some(Point::new(3, 4)));
    assert_eq!(c.render, plain('|'));
    assert_eq!(c.name, Some(Name("Amulet of Yala".to_string())));
    assert_eq!(c.health, None);
    assert_eq!(c.player, None);
}

#[test]
fn goblins_are_weaker_than_orcs() {
    assert_eq!(goblin(), (1, "Goblin".to_string(), 'g'));
    assert_eq!(orc(), (2, "Orc".to_string(), 'o'));
}

#[test]
fn a_roll_up_to_eight_brings_a_goblin() {
    for roll in 1..=10 {
        let mut world = World::new();
        spawn_rolled_monster(&mut world, roll, Point::new(5, 6));
        let c = world.entry(Entity(0)).unwrap();
        assert!(c.enemy && c.chasing_player);
        assert_eq!(c.position, Some(Point::new(5, 6)));
        if roll <= 8 {
            assert_eq!(c.name, Some(Name("Goblin".to_string())));
            assert_eq!(c.health, Some(Health { current: 1, max: 1 }));
            assert_eq!(c.render, plain('g'));
        } else {
            assert_eq!(c.name, Some(Name("Orc".to_string())));
            assert_eq!(c.health, Some(Health { current: 2, max: 2 }));
            assert_eq!(c.render, plain('o'));
        }
    }
}

#[test]
fn monsters_are_goblins_mostly_and_orcs_at_times() {
    let mut world = World::new();
    let mut rng = RandomNumberGenerator::seeded(12);
    for _ in 0..200 {
        spawn_monster(&mut world, &mut rng, Point::new(1, 2));
    }
    assert_eq!(world.len(), 200);
    let mut goblins = 0;
    let mut orcs = 0;
    for i in 0..200 {
        let c = world.entry(Entity(i)).unwrap();
        assert_eq!(c.position, Some(Point::new(1, 2)));
        match c.health {
            Some(Health { current: 1, max: 1 }) => goblins += 1,
            Some(Health { current: 2, max: 2 }) => orcs += 1,
            other => panic!("unexpected health {:?}", other),
        }
    }
    assert!(goblins > orcs);
    assert!(orcs > 10);
}

#[test]
fn effects_are_told_by_their_names() {
    assert!(reads(&"Healing".to_string(), "Healing"));
    assert!(!reads(&"healing".to_string(), "Healing"));
    assert!(!reads(&"MagicMap".to_string(), "Healing"));
    assert!(reads(&"".to_string(), ""));
}

#[test]
fn a_draw_holds_each_kind_of_the_level_as_often_as_its_frequency_says() {
    let stock = stock();
    assert_eq!(stock.available(0), vec![0, 0, 1, 2, 3, 3, 3]);
    assert_eq!(stock.available(1), vec![0, 0, 1, 2, 4, 4]);
    assert_eq!(stock.available(7), Vec::<usize>::new());
    let mut odd = stock;
    odd.entities[0].frequency = 0;
    odd.entities[1].frequency = -4;
    assert_eq!(odd.available(0), vec![2, 3, 3, 3]);
}

#[test]
fn the_frequencies_must_sum_to_less_than_a_draw_can_number() {
    let mut stock = stock();
    assert!(stock.fits());
    stock.entities[0].frequency = i32::MAX - 7;
    assert!(stock.entities.iter().map(|t| t.frequency as i64).sum::<i64>() == i32::MAX as i64);
    assert!(!stock.fits());
    stock.entities[0].frequency = i32::MAX - 8;
    assert!(stock.fits());
    stock.entities[1].frequency = -5;
    stock.entities[0].frequency = i32::MAX - 7;
    assert!(stock.fits());
    assert!(Templates { entities: Vec::new() }.fits());
}

#[test]
fn an_entity_is_made_as_its_kind_says() {
    let stock = stock();
    let mut world = World::new();
    let pt = Point::new(4, 5);
    for template in stock.entities.iter() {
        assert_eq!(stock.spawn_entity(&pt, template, &mut world), Ok(()));
    }
    assert_eq!(world.len(), 5);
    let potion = world.entry(Entity(0)).unwrap();
    assert!(potion.item && !potion.enemy && !potion.weapon && !potion.dungeon_map);
    assert_eq!(potion.healing, Some(ProvidesHealing { amount: 6 }));
    assert_eq!(potion.name, Some(Name("Healing Potion".to_string())));
    assert_eq!(potion.render, plain('!'));
    assert_eq!(potion.position, Some(pt));
    assert_eq!(potion.health, None);
    assert_eq!(potion.field_of_view, None);
    let scroll = world.entry(Entity(1)).unwrap();
    assert!(scroll.item && scroll.dungeon_map);
    assert_eq!(scroll.healing, None);
    let sword = world.entry(Entity(2)).unwrap();
    assert!(sword.item && sword.weapon);
    assert_eq!(sword.damage, Some(Damage(1)));
    let goblin = world.entry(Entity(3)).unwrap();
    assert!(goblin.enemy && goblin.chasing_player && !goblin.item && !goblin.weapon);
    assert_eq!(goblin.health, Some(Health { current: 1, max: 1 }));
    assert_eq!(goblin.damage, Some(Damage(1)));
    let view = goblin.field_of_view.as_ref().unwrap();
    assert_eq!(view.radius, 6);
    assert!(view.is_dirty);
    let ogre = world.entry(Entity(4)).unwrap();
    assert_eq!(ogre.health, Some(Health { current: 5, max: 5 }));
    assert_eq!(ogre.damage, Some(Damage(2)));
    assert_eq!(ogre.render, plain('O'));
}

#[test]
fn the_last_healing_effect_counts_and_unknown_effects_do_nothing() {
    let mut brew = kind(EntityType::Item, "Brew", 'b', &[0], 1);
    brew.provides = Some(vec![
        ("Healing".to_string(), 2),
        ("Stoneskin".to_string(), 9),
        ("Healing".to_string(), 4),
        ("MagicMap".to_string(), 1),
        ("magicmap".to_string(), 1),
    ]);
    let stock = Templates { entities: vec![brew] };
    let mut world = World::new();
    assert_eq!(stock.spawn_entity(&Point::new(1, 1), &stock.entities[0], &mut world), Ok(()));
    let c = world.entry(Entity(0)).unwrap();
    assert_eq!(c.healing, Some(ProvidesHealing { amount: 4 }));
    assert!(c.dungeon_map);
    let mut dud = kind(EntityType::Item, "Dud", 'd', &[0], 1);
    dud.provides = Some(vec![("Stoneskin".to_string(), 9)]);
    assert_eq!(stock.spawn_entity(&Point::new(1, 1), &dud, &mut world), Ok(()));
    let c = world.entry(Entity(1)).unwrap();
    assert_eq!(c.healing, None);
    assert!(!c.dungeon_map);
}

#[test]
fn an_enemy_without_health_cannot_be_made() {
    let ghost = kind(EntityType::Enemy, "Ghost", 'G', &[0], 1);
    let stock = Templates { entities: vec![ghost] };
    let mut world = World::new();
    assert_eq!(
        stock.spawn_entity(&Point::new(1, 1), &stock.entities[0], &mut world),
        Err(Defect::EnemyWithoutHealth)
    );
    assert_eq!(world.len(), 0);
    let mut rng = RandomNumberGenerator::seeded(1);
    assert_eq!(
        spawn_level(&mut world, &mut rng, 0, &vec![Point::new(1, 1)], &stock),
        Err(Defect::EnemyWithoutHealth)
    );
    assert_eq!(world.len(), 0);
    assert_eq!(spawn_level(&mut world, &mut rng, 1, &vec![Point::new(1, 1)], &stock), Ok(()));
    assert_eq!(spawn_level(&mut world, &mut rng, 0, &Vec::new(), &stock), Ok(()));
}

#[test]
fn a_level_is_stocked_with_one_entity_at_each_spawn_point() {
    let stock = stock();
    let points: Vec<Point> = (0..60).map(|i| Point::new(i, 2 * (i % 20))).collect();
    let mut world = World::new();
    spawn_player(&mut world, Point::new(40, 25));
    let mut rng = RandomNumberGenerator::seeded(77);
    assert_eq!(spawn_level(&mut world, &mut rng, 1, &points, &stock), Ok(()));
    assert_eq!(world.len(), 61);
    assert!(world.entry(Entity(0)).unwrap().player.is_some());
    let mut names: HashSet<String> = HashSet::new();
    for (i, p) in points.iter().enumerate() {
        let c = world.entry(Entity(i + 1)).unwrap();
        assert_eq!(c.position, Some(*p));
        names.insert(c.name.as_ref().unwrap().0.clone());
    }
    let expected: HashSet<String> = ["Healing Potion", "Dungeon Map", "Rusty Sword", "Ogre"]
        .iter()
        .map(|s| s.to_string())
        .collect();
    assert_eq!(names, expected);
    assert!(world.wants_to_move.is_empty() && world.wants_to_attack.is_empty());
}

#[test]
fn a_level_without_kinds_stays_empty() {
    let stock = stock();
    let mut world = World::new();
    let mut rng = RandomNumberGenerator::seeded(77);
    let points = vec![Point::new(1, 1), Point::new(2, 2)];
    assert_eq!(stock.spawn_entities(&mut world, &mut rng, 5, &points), Ok(()));
    assert_eq!(world.len(), 0);
    let none = Templates { entities: Vec::new() };
    assert_eq!(none.spawn_entities(&mut world, &mut rng, 0, &points), Ok(()));
    assert_eq!(world.len(), 0);
}
