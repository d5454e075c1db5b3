use dungeoncrawl::components::{
    ActivateItem, Carried, Components, Entity, FieldOfView, Health, Player, WantsToAttack,
    WantsToMove,
};
use dungeoncrawl::geometry::Point;
use dungeoncrawl::map::NUM_TILES;
use dungeoncrawl::world::{Command, CommandBuffer, World};

fn at(x: i32, y: i32) -> Components {
    let mut c = Components::empty();
    c.position = Some(Point::new(x, y));
    c
}

#[test]
fn an_empty_record_has_no_components() {
    let c = Components::empty();
    assert_eq!(c.position, None);
    assert_eq!(c.health, None);
    assert_eq!(c.player, None);
    assert_eq!(c.field_of_view, None);
    assert!(!c.enemy && !c.item && !c.weapon && !c.chasing_player && !c.moving_randomly);
    assert!(!c.amulet_of_yala && !c.dungeon_map);
}

#[test]
fn a_new_field_of_view_is_empty_and_out_of_date() {
    let fov = FieldOfView::new(8);
    assert_eq!(fov.radius, 8);
    assert!(fov.is_dirty);
    assert_eq!(fov.visible_tiles, vec![false; NUM_TILES]);
    assert!(!fov.is_visible(0));
    assert!(!fov.is_visible(NUM_TILES));
}

#[test]
fn a_dirty_copy_keeps_the_radius_only() {
    let mut fov = FieldOfView::new(6);
    fov.is_dirty = false;
    fov.visible_tiles[17] = true;
    assert!(fov.is_visible(17));
    let copy = fov.clone_dirty();
    assert_eq!(copy.radius, 6);
    assert!(copy.is_dirty);
    assert_eq!(copy.visible_tiles, vec![false; NUM_TILES]);
    assert!(fov.visible_tiles[17]);
    assert!(!fov.is_dirty);
}

#[test]
fn entities_are_named_in_the_order_in_which_they_are_spawned() {
    let mut world = World::new();
    assert_eq!(world.len(), 0);
    assert_eq!(world.push(at(1, 1)), Entity(0));
    assert_eq!(world.push(at(2, 2)), Entity(1));
    assert_eq!(world.len(), 2);
    assert_eq!(world.entry(Entity(1)).unwrap().position, Some(Point::new(2, 2)));
    assert!(world.entry(Entity(2)).is_none());
}

#[test]
fn a_despawned_entity_leaves_its_row_empty() {
    let mut world = World::new();
    world.push(at(1, 1));
    world.push(at(2, 2));
    world.apply(Command::Remove(Entity(0)));
    assert!(world.entry(Entity(0)).is_none());
    assert_eq!(world.len(), 2);
    assert_eq!(world.push(at(3, 3)), Entity(2));
    world.apply(Command::Remove(Entity(0)));
    world.apply(Command::Remove(Entity(17)));
    assert_eq!(world.len(), 3);
    assert!(world.entry(Entity(1)).is_some());
}

#[test]
fn commands_on_the_dead_do_nothing() {
    let mut world = World::new();
    world.push(at(1, 1));
    world.apply(Command::Remove(Entity(0)));
    world.apply(Command::AddPosition(Entity(0), Point::new(4, 4)));
    world.apply(Command::AddCarried(Entity(0), Carried(Entity(3))));
    world.apply(Command::AddFieldOfView(Entity(5), FieldOfView::new(3)));
    world.apply(Command::RemovePosition(Entity(9)));
    assert!(world.entry(Entity(0)).is_none());
    assert_eq!(world.len(), 1);
}

#[test]
fn commands_attach_and_detach_components() {
    let mut world = World::new();
    let mut c = at(1, 1);
    c.health = Some(Health { current: 3, max: 5 });
    world.push(c);
    world.apply(Command::AddPosition(Entity(0), Point::new(4, 4)));
    assert_eq!(world.entry(Entity(0)).unwrap().position, Some(Point::new(4, 4)));
    world.apply(Command::AddCarried(Entity(0), Carried(Entity(3))));
    world.apply(Command::RemovePosition(Entity(0)));
    world.apply(Command::AddFieldOfView(Entity(0), FieldOfView::new(3)));
    let c = world.entry(Entity(0)).unwrap();
    assert_eq!(c.position, None);
    assert_eq!(c.carried, Some(Carried(Entity(3))));
    assert_eq!(c.field_of_view.as_ref().unwrap().radius, 3);
    assert_eq!(c.health, Some(Health { current: 3, max: 5 }));
}

#[test]
fn intents_are_filed_in_the_order_of_the_commands() {
    let mut world = World::new();
    let a = WantsToMove { entity: Entity(0), destination: Point::new(1, 1) };
    let b = WantsToMove { entity: Entity(1), destination: Point::new(2, 2) };
    let hit = WantsToAttack { attacker: Entity(0), victim: Entity(1) };
    let used = ActivateItem { used_by: Entity(0), item: Entity(2) };
    world.apply(Command::Move(a));
    world.apply(Command::Attack(hit));
    world.apply(Command::Move(b));
    world.apply(Command::Activate(used));
    assert_eq!(world.wants_to_move, vec![a, b]);
    assert_eq!(world.wants_to_attack, vec![hit]);
    assert_eq!(world.activations, vec![used]);
}

#[test]
fn a_buffer_is_applied_in_order_and_left_empty() {
    let mut world = World::new();
    let mut commands = CommandBuffer::new();
    commands.add(Command::Push(at(1, 1)));
    commands.add(Command::AddPosition(Entity(0), Point::new(2, 2)));
    commands.add(Command::Push(at(5, 5)));
    commands.add(Command::Remove(Entity(1)));
    commands.add(Command::AddPosition(Entity(1), Point::new(9, 9)));
    commands.add(Command::AddPosition(Entity(0), Point::new(3, 3)));
    assert_eq!(world.len(), 0);
    commands.flush(&mut world);
    assert_eq!(commands.commands.len(), 0);
    assert_eq!(world.len(), 2);
    assert_eq!(world.entry(Entity(0)).unwrap().position, Some(Point::new(3, 3)));
    assert!(world.entry(Entity(1)).is_none());
    commands.flush(&mut world);
    assert_eq!(world.len(), 2);
}

#[test]
fn the_player_is_the_first_entity_marked_as_one() {
    let mut world = World::new();
    assert_eq!(world.find_player(), None);
    world.push(at(1, 1));
    assert_eq!(world.find_player(), None);
    let mut player = at(2, 2);
    player.player = Some(Player { map_level: 0 });
    world.push(player.clone());
    world.push(player);
    assert_eq!(world.find_player(), Some(Entity(1)));
    world.apply(Command::Remove(Entity(1)));
    assert_eq!(world.find_player(), Some(Entity(2)));
}
