use bracket_random::prelude::RandomNumberGenerator;
use dungeoncrawl::camera::Camera;
use dungeoncrawl::components::{
    ActivateItem, Carried, Components, Damage, Entity, FieldOfView, Health, Player,
    ProvidesHealing, WantsToAttack, WantsToMove,
};
use dungeoncrawl::geometry::Point;
use dungeoncrawl::map::{map_idx, TileGrid, TileType, NUM_TILES};
use dungeoncrawl::systems::chasing::{apart, chasing, find_player_position, intend};
use dungeoncrawl::systems::combat::{combat, damage_of, hit, strike};
use dungeoncrawl::systems::end_turn::{amulet_position, end_turn, next_state};
use dungeoncrawl::systems::fov::fov;
use dungeoncrawl::systems::movement::{movement, movement_system, reveal_tiles};
use dungeoncrawl::systems::player_input::{delta_of, player_input, use_item, Action};
use dungeoncrawl::systems::random_move::{offset, random_move, wander};
use dungeoncrawl::systems::use_items::{heal, reveal_all, use_items, use_one};
use dungeoncrawl::systems::{
    build_input_scheduler, build_monster_scheduler, build_player_scheduler, build_scheduler,
    Defect, System,
};
use dungeoncrawl::turn_state::TurnState;
use dungeoncrawl::visibility::field_of_view_set;
use dungeoncrawl::world::{Command, CommandBuffer, World};

fn player_at(x: i32, y: i32) -> Components {
    let mut c = Components::empty();
    c.player = Some(Player { map_level: 0 });
    c.position = Some(Point::new(x, y));
    c.health = Some(Health { current: 10, max: 10 });
    c.field_of_view = Some(FieldOfView::new(8));
    c.damage = Some(Damage(1));
    c
}

fn monster_at(x: i32, y: i32, hp: i32) -> Components {
    let mut c = Components::empty();
    c.enemy = true;
    c.chasing_player = true;
    c.position = Some(Point::new(x, y));
    c.health = Some(Health { current: hp, max: hp });
    c.field_of_view = Some(FieldOfView::new(6));
    c.damage = Some(Damage(1));
    c
}

fn item_at(x: i32, y: i32) -> Components {
    let mut c = Components::empty();
    c.item = true;
    c.position = Some(Point::new(x, y));
    c
}

fn carried_by(owner: Entity) -> Components {
    let mut c = Components::empty();
    c.item = true;
    c.carried = Some(Carried(owner));
    c
}

fn walled_grid() -> TileGrid {
    let mut grid = TileGrid::new();
    for t in grid.tiles.iter_mut() {
        *t = TileType::Wall;
    }
    grid
}

fn world_of(rows: Vec<Components>) -> World {
    let mut world = World::new();
    for c in rows {
        world.push(c);
    }
    world
}

// Movement

#[test]
fn a_move_onto_floor_is_committed() {
    let mut map = TileGrid::new();
    let world = world_of(vec![monster_at(5, 5, 2)]);
    let mut camera = Camera::new(Point::new(40, 25));
    let mut commands = CommandBuffer::new();
    let want = WantsToMove { entity: Entity(0), destination: Point::new(6, 5) };
    movement(&want, &mut map, &mut camera, &world, &mut commands);
    assert_eq!(commands.commands.len(), 2);
    assert_eq!(commands.commands[0], Command::AddPosition(Entity(0), Point::new(6, 5)));
    match &commands.commands[1] {
        Command::AddFieldOfView(e, fov) => {
            assert_eq!(*e, Entity(0));
            assert_eq!(fov.radius, 6);
            assert!(fov.is_dirty);
            assert!(fov.visible_tiles.iter().all(|v| !*v));
        }
        other => panic!("unexpected command {:?}", other),
    }
    assert_eq!(camera, Camera::new(Point::new(40, 25)));
    assert!(map.revealed_tiles.iter().all(|r| !*r));
}

#[test]
fn movement_never_commits_a_position_on_a_wall_or_off_the_grid() {
    let mut map = TileGrid::new();
    map.tiles[map_idx(6, 5)] = TileType::Wall;
    let mut world = world_of(vec![player_at(5, 5), monster_at(0, 0, 2), monster_at(79, 49, 2)]);
    world.wants_to_move = vec![
        WantsToMove { entity: Entity(0), destination: Point::new(6, 5) },
        WantsToMove { entity: Entity(1), destination: Point::new(-1, 0) },
        WantsToMove { entity: Entity(1), destination: Point::new(0, -1) },
        WantsToMove { entity: Entity(2), destination: Point::new(80, 49) },
        WantsToMove { entity: Entity(2), destination: Point::new(79, 50) },
        WantsToMove { entity: Entity(2), destination: Point::new(i32::MAX, i32::MIN) },
    ];
    let mut camera = Camera::new(Point::new(5, 5));
    let mut commands = CommandBuffer::new();
    movement_system(&mut world, &mut map, &mut camera, &mut commands);
    assert_eq!(commands.commands.len(), 0);
    assert_eq!(world.wants_to_move.len(), 0);
    commands.flush(&mut world);
    assert_eq!(world.entry(Entity(0)).unwrap().position, Some(Point::new(5, 5)));
    assert_eq!(world.entry(Entity(1)).unwrap().position, Some(Point::new(0, 0)));
    assert_eq!(world.entry(Entity(2)).unwrap().position, Some(Point::new(79, 49)));
    assert_eq!(camera, Camera::new(Point::new(5, 5)));
}

#[test]
fn the_way_down_can_be_stepped_on() {
    let mut map = walled_grid();
    map.tiles[map_idx(6, 5)] = TileType::Exit;
    let mut world = world_of(vec![player_at(5, 5)]);
    world.wants_to_move = vec![WantsToMove { entity: Entity(0), destination: Point::new(6, 5) }];
    let mut camera = Camera::new(Point::new(5, 5));
    let mut commands = CommandBuffer::new();
    movement_system(&mut world, &mut map, &mut camera, &mut commands);
    commands.flush(&mut world);
    assert_eq!(world.entry(Entity(0)).unwrap().position, Some(Point::new(6, 5)));
}

#[test]
fn a_move_of_the_player_centres_the_window_and_reveals_what_was_in_view() {
    let mut map = TileGrid::new();
    let mut player = player_at(5, 5);
    let mut view = FieldOfView::new(8);
    view.is_dirty = false;
    view.visible_tiles[map_idx(5, 5)] = true;
    view.visible_tiles[map_idx(6, 5)] = true;
    player.field_of_view = Some(view);
    let mut world = world_of(vec![player]);
    map.revealed_tiles[map_idx(1, 1)] = true;
    world.wants_to_move = vec![WantsToMove { entity: Entity(0), destination: Point::new(6, 5) }];
    let mut camera = Camera::new(Point::new(5, 5));
    let mut commands = CommandBuffer::new();
    movement_system(&mut world, &mut map, &mut camera, &mut commands);
    assert_eq!(world.wants_to_move.len(), 0);
    assert_eq!(camera, Camera { left_x: -14, right_x: 26, top_y: -7, bottom_y: 17 });
    let revealed: Vec<usize> = (0..NUM_TILES).filter(|i| map.revealed_tiles[*i]).collect();
    assert_eq!(revealed, vec![map_idx(1, 1), map_idx(5, 5), map_idx(6, 5)]);
    commands.flush(&mut world);
    let c = world.entry(Entity(0)).unwrap();
    assert_eq!(c.position, Some(Point::new(6, 5)));
    let fov = c.field_of_view.as_ref().unwrap();
    assert!(fov.is_dirty);
    assert_eq!(fov.radius, 8);
    assert!(fov.visible_tiles.iter().all(|v| !*v));
    assert_eq!(c.health, Some(Health { current: 10, max: 10 }));
}

#[test]
fn a_mover_without_a_field_of_view_just_moves() {
    let mut map = TileGrid::new();
    let mut world = world_of(vec![item_at(3, 3)]);
    world.wants_to_move = vec![
        WantsToMove { entity: Entity(0), destination: Point::new(4, 3) },
        WantsToMove { entity: Entity(7), destination: Point::new(9, 9) },
    ];
    let mut camera = Camera::new(Point::new(5, 5));
    let mut commands = CommandBuffer::new();
    movement_system(&mut world, &mut map, &mut camera, &mut commands);
    assert_eq!(
        commands.commands,
        vec![
            Command::AddPosition(Entity(0), Point::new(4, 3)),
            Command::AddPosition(Entity(7), Point::new(9, 9))
        ]
    );
    commands.flush(&mut world);
    assert_eq!(world.entry(Entity(0)).unwrap().position, Some(Point::new(4, 3)));
    assert_eq!(world.len(), 1);
}

#[test]
fn revealing_adds_to_what_was_seen() {
    let mut map = TileGrid::new();
    map.revealed_tiles[3] = true;
    let mut visible = vec![false; NUM_TILES];
    visible[5] = true;
    reveal_tiles(&mut map, &visible);
    assert!(map.revealed_tiles[3] && map.revealed_tiles[5]);
    assert_eq!(map.revealed_tiles.iter().filter(|r| **r).count(), 2);
    reveal_tiles(&mut map, &vec![false; NUM_TILES]);
    assert_eq!(map.revealed_tiles.iter().filter(|r| **r).count(), 2);
}

// Combat

#[test]
fn a_blow_deals_the_damage_of_the_attacker_and_of_its_weapons() {
    let mut sword = carried_by(Entity(0));
    sword.weapon = true;
    sword.damage = Some(Damage(3));
    let mut potion = carried_by(Entity(0));
    potion.healing = Some(ProvidesHealing { amount: 6 });
    let mut dagger = carried_by(Entity(1));
    dagger.damage = Some(Damage(7));
    let mut charm = carried_by(Entity(0));
    charm.damage = Some(Damage(2));
    let world = world_of(vec![player_at(5, 5), monster_at(6, 5, 9), sword, potion, dagger, charm]);
    assert_eq!(damage_of(&world, Entity(0)), 1 + 3 + 2);
    assert_eq!(damage_of(&world, Entity(1)), 1 + 7);
    assert_eq!(damage_of(&world, Entity(2)), 3);
    assert_eq!(damage_of(&world, Entity(3)), 0);
    assert_eq!(damage_of(&world, Entity(99)), 0);
}

#[test]
fn health_is_taken_within_the_range_of_numbers() {
    let h = Health { current: 5, max: 10 };
    assert_eq!(hit(h, 3), Health { current: 2, max: 10 });
    assert_eq!(hit(h, 5), Health { current: 0, max: 10 });
    assert_eq!(hit(h, 7), Health { current: -2, max: 10 });
    assert_eq!(hit(h, -4), Health { current: 9, max: 10 });
    assert_eq!(hit(h, 1 << 40), Health { current: i32::MIN, max: 10 });
    assert_eq!(hit(h, -(1 << 40)), Health { current: i32::MAX, max: 10 });
}

#[test]
fn combat_despawns_a_victim_other_than_the_player_when_its_health_is_spent() {
    let mut world = world_of(vec![player_at(5, 5), monster_at(6, 5, 1), monster_at(4, 5, 2)]);
    world.wants_to_attack = vec![
        WantsToAttack { attacker: Entity(0), victim: Entity(1) },
        WantsToAttack { attacker: Entity(0), victim: Entity(2) },
    ];
    let mut commands = CommandBuffer::new();
    combat(&mut world, &mut commands);
    assert_eq!(world.wants_to_attack.len(), 0);
    assert_eq!(commands.commands, vec![Command::Remove(Entity(1))]);
    assert_eq!(world.entry(Entity(1)).unwrap().health, Some(Health { current: 0, max: 1 }));
    assert_eq!(world.entry(Entity(2)).unwrap().health, Some(Health { current: 1, max: 2 }));
    commands.flush(&mut world);
    assert!(world.entry(Entity(1)).is_none());
    assert!(world.entry(Entity(2)).is_some());
    assert!(world.entry(Entity(0)).is_some());
}

#[test]
fn combat_never_despawns_the_player() {
    let mut strong = monster_at(6, 5, 5);
    strong.damage = Some(Damage(25));
    let mut world = world_of(vec![player_at(5, 5), strong]);
    world.wants_to_attack = vec![WantsToAttack { attacker: Entity(1), victim: Entity(0) }];
    let mut commands = CommandBuffer::new();
    combat(&mut world, &mut commands);
    assert_eq!(commands.commands.len(), 0);
    assert_eq!(world.entry(Entity(0)).unwrap().health, Some(Health { current: -15, max: 10 }));
    commands.flush(&mut world);
    assert!(world.entry(Entity(0)).is_some());
}

#[test]
fn blows_on_one_victim_add_up() {
    let mut world = world_of(vec![player_at(5, 5), monster_at(6, 5, 3)]);
    let blow = WantsToAttack { attacker: Entity(0), victim: Entity(1) };
    world.wants_to_attack = vec![blow, blow, blow, blow];
    let mut commands = CommandBuffer::new();
    combat(&mut world, &mut commands);
    assert_eq!(world.entry(Entity(1)).unwrap().health, Some(Health { current: -1, max: 3 }));
    assert_eq!(commands.commands, vec![Command::Remove(Entity(1)), Command::Remove(Entity(1))]);
    commands.flush(&mut world);
    assert!(world.entry(Entity(1)).is_none());
}

#[test]
fn a_blow_on_what_has_no_health_does_nothing() {
    let mut world = world_of(vec![player_at(5, 5), item_at(6, 5)]);
    let mut commands = CommandBuffer::new();
    strike(&mut world, &WantsToAttack { attacker: Entity(0), victim: Entity(1) }, &mut commands);
    strike(&mut world, &WantsToAttack { attacker: Entity(0), victim: Entity(9) }, &mut commands);
    assert_eq!(commands.commands.len(), 0);
    assert_eq!(world.entry(Entity(1)).unwrap().health, None);
    // An attacker that does not live deals no damage.
    strike(&mut world, &WantsToAttack { attacker: Entity(9), victim: Entity(0) }, &mut commands);
    assert_eq!(world.entry(Entity(0)).unwrap().health, Some(Health { current: 10, max: 10 }));
}

// Items

#[test]
fn a_potion_of_4_on_6_of_10_gives_10_of_10() {
    assert_eq!(heal(Health { current: 6, max: 10 }, 4), Health { current: 10, max: 10 });
    assert_eq!(heal(Health { current: 6, max: 10 }, 3), Health { current: 9, max: 10 });
    assert_eq!(heal(Health { current: 6, max: 10 }, 40), Health { current: 10, max: 10 });
    assert_eq!(heal(Health { current: 6, max: 10 }, i32::MAX), Health { current: 10, max: 10 });
    assert_eq!(heal(Health { current: -3, max: 10 }, 2), Health { current: -1, max: 10 });
    assert_eq!(heal(Health { current: 12, max: 10 }, 1), Health { current: 10, max: 10 });
    assert_eq!(
        heal(Health { current: i32::MIN, max: 10 }, -5),
        Health { current: i32::MIN, max: 10 }
    );
}

#[test]
fn a_potion_heals_its_user_and_is_gone() {
    let mut hurt = player_at(5, 5);
    hurt.health = Some(Health { current: 6, max: 10 });
    let mut potion = carried_by(Entity(0));
    potion.healing = Some(ProvidesHealing { amount: 4 });
    let mut world = world_of(vec![hurt, potion, monster_at(9, 9, 2)]);
    world.activations = vec![ActivateItem { used_by: Entity(0), item: Entity(1) }];
    let mut map = TileGrid::new();
    let mut commands = CommandBuffer::new();
    use_items(&mut world, &mut commands, &mut map);
    assert_eq!(world.activations.len(), 0);
    assert_eq!(world.entry(Entity(0)).unwrap().health, Some(Health { current: 10, max: 10 }));
    assert_eq!(commands.commands, vec![Command::Remove(Entity(1))]);
    assert!(map.revealed_tiles.iter().all(|r| !*r));
    commands.flush(&mut world);
    assert!(world.entry(Entity(1)).is_none());
    assert!(world.entry(Entity(2)).is_some());
}

#[test]
fn a_map_shows_the_whole_level() {
    let mut scroll = carried_by(Entity(0));
    scroll.dungeon_map = true;
    let mut world = world_of(vec![player_at(5, 5), scroll]);
    let mut map = TileGrid::new();
    let mut commands = CommandBuffer::new();
    use_one(
        &mut world,
        &ActivateItem { used_by: Entity(0), item: Entity(1) },
        &mut commands,
        &mut map,
    );
    assert!(map.revealed_tiles.iter().all(|r| *r));
    assert_eq!(commands.commands, vec![Command::Remove(Entity(1))]);
    assert_eq!(world.entry(Entity(0)).unwrap().health, Some(Health { current: 10, max: 10 }));
}

#[test]
fn the_use_of_what_is_not_there_queues_its_despawning_and_does_nothing_else() {
    let mut world = world_of(vec![player_at(5, 5)]);
    let mut map = TileGrid::new();
    let mut commands = CommandBuffer::new();
    use_one(
        &mut world,
        &ActivateItem { used_by: Entity(0), item: Entity(4) },
        &mut commands,
        &mut map,
    );
    assert_eq!(commands.commands, vec![Command::Remove(Entity(4))]);
    assert!(map.revealed_tiles.iter().all(|r| !*r));
    let mut grid = TileGrid::new();
    reveal_all(&mut grid);
    assert!(grid.revealed_tiles.iter().all(|r| *r));
}

// Chasing

#[test]
fn a_chaser_next_to_the_player_attacks_and_does_not_move() {
    let map = TileGrid::new();
    for (x, y) in [(11, 10), (9, 10), (10, 11), (10, 9)] {
        let world = world_of(vec![player_at(10, 10), monster_at(x, y, 2)]);
        let mut commands = CommandBuffer::new();
        assert_eq!(chasing(&map, &world, &mut commands), Ok(()));
        assert_eq!(
            commands.commands,
            vec![Command::Attack(WantsToAttack { attacker: Entity(1), victim: Entity(0) })]
        );
    }
}

#[test]
fn a_chaser_further_away_steps_towards_the_player() {
    let map = TileGrid::new();
    let world = world_of(vec![
        monster_at(15, 10, 2),
        player_at(10, 10),
        monster_at(11, 11, 2),
        monster_at(10, 3, 2),
    ]);
    let mut commands = CommandBuffer::new();
    assert_eq!(chasing(&map, &world, &mut commands), Ok(()));
    assert_eq!(
        commands.commands,
        vec![
            Command::Move(WantsToMove { entity: Entity(0), destination: Point::new(14, 10) }),
            Command::Move(WantsToMove { entity: Entity(2), destination: Point::new(10, 11) }),
            Command::Move(WantsToMove { entity: Entity(3), destination: Point::new(10, 4) }),
        ]
    );
}

#[test]
fn a_chaser_walks_around_walls() {
    let mut map = walled_grid();
    for y in 2..=6 {
        map.tiles[map_idx(2, y)] = TileType::Floor;
        map.tiles[map_idx(6, y)] = TileType::Floor;
    }
    for x in 2..=6 {
        map.tiles[map_idx(x, 6)] = TileType::Floor;
    }
    let world = world_of(vec![player_at(2, 2), monster_at(6, 2, 2)]);
    let mut commands = CommandBuffer::new();
    assert_eq!(chasing(&map, &world, &mut commands), Ok(()));
    assert_eq!(
        commands.commands,
        vec![Command::Move(WantsToMove { entity: Entity(1), destination: Point::new(6, 3) })]
    );
}

#[test]
fn a_chaser_files_nothing_where_another_monster_is_in_its_way() {
    let map = TileGrid::new();
    let world = world_of(vec![player_at(10, 10), monster_at(12, 10, 2), monster_at(13, 10, 2)]);
    let mut commands = CommandBuffer::new();
    assert_eq!(chasing(&map, &world, &mut commands), Ok(()));
    assert_eq!(
        commands.commands,
        vec![Command::Move(WantsToMove { entity: Entity(1), destination: Point::new(11, 10) })]
    );
}

#[test]
fn a_chaser_without_an_exit_or_off_the_grid_files_nothing() {
    let mut map = walled_grid();
    map.tiles[map_idx(10, 10)] = TileType::Floor;
    map.tiles[map_idx(20, 20)] = TileType::Floor;
    let mut wanderer = monster_at(30, 30, 2);
    wanderer.chasing_player = false;
    let world = world_of(vec![
        player_at(10, 10),
        monster_at(20, 20, 2),
        monster_at(-3, 7, 2),
        wanderer,
    ]);
    let mut commands = CommandBuffer::new();
    assert_eq!(chasing(&map, &world, &mut commands), Ok(()));
    assert_eq!(commands.commands.len(), 0);
}

#[test]
fn chasing_needs_a_player_on_the_grid() {
    let map = TileGrid::new();
    let mut commands = CommandBuffer::new();
    let nobody = world_of(vec![monster_at(5, 5, 2)]);
    assert_eq!(chasing(&map, &nobody, &mut commands), Err(Defect::NoPlayer));
    let astray = world_of(vec![player_at(80, 5), monster_at(5, 5, 2)]);
    assert_eq!(chasing(&map, &astray, &mut commands), Err(Defect::NoPlayer));
    let mut packed = player_at(5, 5);
    packed.position = None;
    let nowhere = world_of(vec![packed, monster_at(5, 5, 2)]);
    assert_eq!(chasing(&map, &nowhere, &mut commands), Err(Defect::NoPlayer));
    assert_eq!(commands.commands.len(), 0);
    assert_eq!(find_player_position(&nobody), None);
    assert_eq!(find_player_position(&astray), None);
    let here = world_of(vec![monster_at(5, 5, 2), player_at(7, 8)]);
    assert_eq!(find_player_position(&here), Some(Point::new(7, 8)));
}

#[test]
fn one_step_along_one_axis_is_not_apart() {
    let a = Point::new(10, 10);
    assert!(!apart(a, a));
    assert!(!apart(a, Point::new(11, 10)));
    assert!(!apart(a, Point::new(10, 9)));
    assert!(apart(a, Point::new(11, 11)));
    assert!(apart(a, Point::new(12, 10)));
}

#[test]
fn an_intent_is_an_attack_on_the_player_or_a_move_onto_free_ground() {
    let world = world_of(vec![player_at(10, 10), monster_at(12, 10, 2), item_at(14, 10)]);
    let mut commands = CommandBuffer::new();
    intend(&world, Entity(1), Point::new(10, 10), &mut commands);
    intend(&world, Entity(0), Point::new(12, 10), &mut commands);
    intend(&world, Entity(1), Point::new(14, 10), &mut commands);
    intend(&world, Entity(1), Point::new(13, 10), &mut commands);
    assert_eq!(
        commands.commands,
        vec![
            Command::Attack(WantsToAttack { attacker: Entity(1), victim: Entity(0) }),
            Command::Move(WantsToMove { entity: Entity(1), destination: Point::new(14, 10) }),
            Command::Move(WantsToMove { entity: Entity(1), destination: Point::new(13, 10) }),
        ]
    );
}

// Wandering

#[test]
fn a_wanderer_is_drawn_one_step_as_the_roll_says() {
    let mut wanderer = monster_at(5, 5, 2);
    wanderer.chasing_player = false;
    wanderer.moving_randomly = true;
    let world = world_of(vec![wanderer, player_at(5, 6), monster_at(9, 9, 2)]);
    let expected = [
        Command::Move(WantsToMove { entity: Entity(0), destination: Point::new(4, 5) }),
        Command::Move(WantsToMove { entity: Entity(0), destination: Point::new(6, 5) }),
        Command::Move(WantsToMove { entity: Entity(0), destination: Point::new(5, 4) }),
        Command::Attack(WantsToAttack { attacker: Entity(0), victim: Entity(1) }),
    ];
    for roll in 0..4 {
        let mut commands = CommandBuffer::new();
        wander(&world, 0, roll, &mut commands);
        assert_eq!(commands.commands, vec![expected[roll as usize].clone()]);
    }
    let mut commands = CommandBuffer::new();
    wander(&world, 1, 0, &mut commands);
    wander(&world, 2, 0, &mut commands);
    assert_eq!(commands.commands.len(), 0);
}

#[test]
fn wanderers_file_one_intent_each() {
    let mut a = monster_at(5, 5, 2);
    a.chasing_player = false;
    a.moving_randomly = true;
    let mut b = monster_at(50, 40, 2);
    b.chasing_player = false;
    b.moving_randomly = true;
    let world = world_of(vec![a, player_at(20, 20), b]);
    let mut met = [false; 4];
    for seed in 0..40u64 {
        let mut rng = RandomNumberGenerator::seeded(seed);
        let mut commands = CommandBuffer::new();
        random_move(&world, &mut commands, &mut rng);
        assert_eq!(commands.commands.len(), 2);
        match (&commands.commands[0], &commands.commands[1]) {
            (Command::Move(first), Command::Move(second)) => {
                assert_eq!(first.entity, Entity(0));
                assert_eq!(second.entity, Entity(2));
                let d = first.destination;
                let step = (d.x - 5, d.y - 5);
                let dir = [(-1, 0), (1, 0), (0, -1), (0, 1)].iter().position(|s| *s == step);
                met[dir.unwrap()] = true;
                let e = second.destination;
                assert_eq!((e.x - 50).abs() + (e.y - 40).abs(), 1);
            }
            other => panic!("unexpected commands {:?}", other),
        }
    }
    assert!(met.iter().all(|m| *m));
}

#[test]
fn a_step_off_the_numbers_is_none() {
    assert_eq!(offset(Point::new(5, 5), Point::new(-1, 0)), Some(Point::new(4, 5)));
    assert_eq!(offset(Point::new(i32::MIN, 5), Point::new(-1, 0)), None);
    assert_eq!(offset(Point::new(5, i32::MAX), Point::new(0, 1)), None);
    assert_eq!(offset(Point::new(i32::MAX, 5), Point::new(-1, 0)), Some(Point::new(i32::MAX - 1, 5)));
}

// Input

#[test]
fn a_step_onto_free_ground_is_an_intent_to_move() {
    let world = world_of(vec![player_at(10, 10), monster_at(20, 20, 2)]);
    let steps = [
        (Action::Left, Point::new(9, 10)),
        (Action::Right, Point::new(11, 10)),
        (Action::Up, Point::new(10, 9)),
        (Action::Down, Point::new(10, 11)),
    ];
    for (action, destination) in steps {
        let mut commands = CommandBuffer::new();
        let mut turn = TurnState::AwaitingInput;
        assert_eq!(player_input(&world, &mut commands, &Some(action), &mut turn), Ok(()));
        assert_eq!(turn, TurnState::PlayerTurn);
        assert_eq!(
            commands.commands,
            vec![Command::Move(WantsToMove { entity: Entity(0), destination })]
        );
    }
}

#[test]
fn a_step_onto_an_enemy_is_an_attack() {
    let world = world_of(vec![monster_at(11, 10, 2), player_at(10, 10), monster_at(11, 10, 2)]);
    let mut commands = CommandBuffer::new();
    let mut turn = TurnState::AwaitingInput;
    assert_eq!(player_input(&world, &mut commands, &Some(Action::Right), &mut turn), Ok(()));
    assert_eq!(turn, TurnState::PlayerTurn);
    assert_eq!(
        commands.commands,
        vec![
            Command::Attack(WantsToAttack { attacker: Entity(1), victim: Entity(0) }),
            Command::Attack(WantsToAttack { attacker: Entity(1), victim: Entity(2) }),
        ]
    );
}

#[test]
fn waiting_takes_the_turn_and_no_command_takes_nothing() {
    let world = world_of(vec![player_at(10, 10)]);
    let mut commands = CommandBuffer::new();
    let mut turn = TurnState::AwaitingInput;
    assert_eq!(player_input(&world, &mut commands, &None, &mut turn), Ok(()));
    assert_eq!(turn, TurnState::AwaitingInput);
    assert_eq!(player_input(&world, &mut commands, &Some(Action::Wait), &mut turn), Ok(()));
    assert_eq!(turn, TurnState::PlayerTurn);
    assert_eq!(commands.commands.len(), 0);
}

#[test]
fn input_needs_a_player_with_a_position() {
    let mut commands = CommandBuffer::new();
    let mut turn = TurnState::AwaitingInput;
    let nobody = world_of(vec![monster_at(5, 5, 2)]);
    assert_eq!(
        player_input(&nobody, &mut commands, &Some(Action::Left), &mut turn),
        Err(Defect::NoPlayer)
    );
    let mut packed = player_at(5, 5);
    packed.position = None;
    let nowhere = world_of(vec![packed]);
    assert_eq!(
        player_input(&nowhere, &mut commands, &Some(Action::Wait), &mut turn),
        Err(Defect::NoPlayer)
    );
    assert_eq!(player_input(&nobody, &mut commands, &None, &mut turn), Ok(()));
    assert_eq!(turn, TurnState::AwaitingInput);
    assert_eq!(commands.commands.len(), 0);
}

#[test]
fn picking_up_moves_what_lies_there_into_the_pack() {
    let mut monster_item = monster_at(10, 10, 1);
    monster_item.item = false;
    let world = world_of(vec![
        item_at(10, 10),
        player_at(10, 10),
        item_at(11, 10),
        item_at(10, 10),
        monster_item,
    ]);
    let mut commands = CommandBuffer::new();
    let mut turn = TurnState::AwaitingInput;
    assert_eq!(player_input(&world, &mut commands, &Some(Action::PickUp), &mut turn), Ok(()));
    assert_eq!(turn, TurnState::PlayerTurn);
    assert_eq!(
        commands.commands,
        vec![
            Command::RemovePosition(Entity(0)),
            Command::AddCarried(Entity(0), Carried(Entity(1))),
            Command::RemovePosition(Entity(3)),
            Command::AddCarried(Entity(3), Carried(Entity(1))),
        ]
    );
    let mut world = world;
    commands.flush(&mut world);
    assert_eq!(world.entry(Entity(0)).unwrap().position, None);
    assert_eq!(world.entry(Entity(0)).unwrap().carried, Some(Carried(Entity(1))));
    assert_eq!(world.entry(Entity(2)).unwrap().position, Some(Point::new(11, 10)));
}

#[test]
fn a_weapon_that_is_picked_up_replaces_the_weapons_in_the_pack() {
    let mut old_sword = carried_by(Entity(0));
    old_sword.weapon = true;
    old_sword.damage = Some(Damage(1));
    let mut potion = carried_by(Entity(0));
    potion.healing = Some(ProvidesHealing { amount: 6 });
    let mut foreign_sword = carried_by(Entity(9));
    foreign_sword.weapon = true;
    let mut new_sword = item_at(10, 10);
    new_sword.weapon = true;
    new_sword.damage = Some(Damage(3));
    let mut world = world_of(vec![player_at(10, 10), old_sword, potion, foreign_sword, new_sword]);
    let mut commands = CommandBuffer::new();
    let mut turn = TurnState::AwaitingInput;
    assert_eq!(player_input(&world, &mut commands, &Some(Action::PickUp), &mut turn), Ok(()));
    assert_eq!(
        commands.commands,
        vec![
            Command::RemovePosition(Entity(4)),
            Command::AddCarried(Entity(4), Carried(Entity(0))),
            Command::Remove(Entity(1)),
        ]
    );
    commands.flush(&mut world);
    assert!(world.entry(Entity(1)).is_none());
    assert_eq!(damage_of(&world, Entity(0)), 1 + 3);
}

#[test]
fn an_item_is_used_by_its_place_in_the_pack() {
    let mut foreign = carried_by(Entity(7));
    foreign.healing = Some(ProvidesHealing { amount: 1 });
    let mut tagless = Components::empty();
    tagless.carried = Some(Carried(Entity(1)));
    let world = world_of(vec![
        carried_by(Entity(1)),
        player_at(10, 10),
        foreign,
        tagless,
        carried_by(Entity(1)),
        item_at(10, 10),
        carried_by(Entity(1)),
    ]);
    let slots = [Some(Entity(0)), Some(Entity(4)), Some(Entity(6)), None, None];
    for (n, item) in slots.iter().enumerate() {
        let mut commands = CommandBuffer::new();
        assert_eq!(use_item(n, &world, &mut commands), Point::new(0, 0));
        let expected: Vec<Command> = item
            .iter()
            .map(|i| Command::Activate(ActivateItem { used_by: Entity(1), item: *i }))
            .collect();
        assert_eq!(commands.commands, expected);
    }
    let mut commands = CommandBuffer::new();
    let mut turn = TurnState::AwaitingInput;
    assert_eq!(player_input(&world, &mut commands, &Some(Action::UseItem(1)), &mut turn), Ok(()));
    assert_eq!(
        commands.commands,
        vec![Command::Activate(ActivateItem { used_by: Entity(1), item: Entity(4) })]
    );
    assert_eq!(turn, TurnState::PlayerTurn);
    let nobody = world_of(vec![carried_by(Entity(1))]);
    let mut commands = CommandBuffer::new();
    assert_eq!(use_item(0, &nobody, &mut commands), Point::new(0, 0));
    assert_eq!(commands.commands.len(), 0);
}

#[test]
fn actions_ask_for_steps() {
    assert_eq!(delta_of(Action::Left), Point::new(-1, 0));
    assert_eq!(delta_of(Action::Right), Point::new(1, 0));
    assert_eq!(delta_of(Action::Up), Point::new(0, -1));
    assert_eq!(delta_of(Action::Down), Point::new(0, 1));
    assert_eq!(delta_of(Action::PickUp), Point::new(0, 0));
    assert_eq!(delta_of(Action::UseItem(3)), Point::new(0, 0));
    assert_eq!(delta_of(Action::Wait), Point::new(0, 0));
}

// Visibility refresh

#[test]
fn stale_fields_of_view_are_worked_out_and_fresh_ones_left_alone() {
    let mut map = TileGrid::new();
    map.tiles[map_idx(11, 10)] = TileType::Wall;
    let mut fresh = monster_at(30, 30, 2);
    let mut view = FieldOfView::new(6);
    view.is_dirty = false;
    view.visible_tiles[3] = true;
    fresh.field_of_view = Some(view.clone());
    let mut astray = monster_at(-5, 5, 2);
    let mut filled = FieldOfView::new(6);
    filled.visible_tiles[9] = true;
    astray.field_of_view = Some(filled);
    let mut blind = monster_at(1, 1, 2);
    blind.field_of_view = None;
    let mut world = world_of(vec![monster_at(10, 10, 2), fresh, player_at(40, 25), astray, blind]);
    fov(&mut world, &mut map);
    let first = world.entry(Entity(0)).unwrap().field_of_view.as_ref().unwrap();
    assert!(!first.is_dirty);
    assert_eq!(first.radius, 6);
    assert_eq!(first.visible_tiles, field_of_view_set(Point::new(10, 10), 6, &map));
    assert!(first.visible_tiles[map_idx(11, 10)]);
    assert!(!first.visible_tiles[map_idx(12, 10)]);
    assert_eq!(world.entry(Entity(1)).unwrap().field_of_view, Some(view));
    let player = world.entry(Entity(2)).unwrap().field_of_view.as_ref().unwrap();
    assert!(!player.is_dirty);
    assert_eq!(player.visible_tiles, field_of_view_set(Point::new(40, 25), 8, &map));
    let lost = world.entry(Entity(3)).unwrap().field_of_view.as_ref().unwrap();
    assert!(!lost.is_dirty);
    assert!(lost.visible_tiles.iter().all(|v| !*v));
    assert_eq!(world.entry(Entity(4)).unwrap().field_of_view, None);
    // Only what the player sees counts as seen.
    assert_eq!(map.revealed_tiles, player.visible_tiles);
    assert!(!map.revealed_tiles[map_idx(10, 10)]);
}

#[test]
fn what_was_seen_stays_seen() {
    let mut map = TileGrid::new();
    let mut world = world_of(vec![player_at(10, 10)]);
    fov(&mut world, &mut map);
    assert!(map.revealed_tiles[map_idx(10, 10)]);
    assert!(map.revealed_tiles[map_idx(18, 10)]);
    assert!(!map.revealed_tiles[map_idx(30, 10)]);
    world.apply(Command::AddPosition(Entity(0), Point::new(30, 10)));
    world.apply(Command::AddFieldOfView(Entity(0), FieldOfView::new(8)));
    fov(&mut world, &mut map);
    assert!(map.revealed_tiles[map_idx(10, 10)]);
    assert!(map.revealed_tiles[map_idx(18, 10)]);
    assert!(map.revealed_tiles[map_idx(30, 10)]);
    let now = world.entry(Entity(0)).unwrap().field_of_view.as_ref().unwrap();
    assert!(!now.visible_tiles[map_idx(10, 10)]);
}

// End of turn

#[test]
fn the_turn_passes_on_where_nothing_ends_it() {
    assert_eq!(next_state(TurnState::PlayerTurn, 5, false, false), TurnState::MonsterTurn);
    assert_eq!(next_state(TurnState::MonsterTurn, 5, false, false), TurnState::AwaitingInput);
    assert_eq!(next_state(TurnState::AwaitingInput, 5, false, false), TurnState::AwaitingInput);
    assert_eq!(next_state(TurnState::GameOver, 5, false, false), TurnState::GameOver);
    assert_eq!(next_state(TurnState::Victory, 5, false, false), TurnState::Victory);
    assert_eq!(next_state(TurnState::NextLevel, 5, false, false), TurnState::NextLevel);
}

#[test]
fn death_comes_before_victory_and_victory_before_the_way_down() {
    for current in [TurnState::PlayerTurn, TurnState::MonsterTurn] {
        assert_eq!(next_state(current, 0, true, true), TurnState::GameOver);
        assert_eq!(next_state(current, -3, false, true), TurnState::GameOver);
        assert_eq!(next_state(current, 0, false, false), TurnState::GameOver);
        assert_eq!(next_state(current, 1, true, true), TurnState::Victory);
        assert_eq!(next_state(current, 1, true, false), TurnState::Victory);
        assert_eq!(next_state(current, 1, false, true), TurnState::NextLevel);
    }
    assert_eq!(next_state(TurnState::AwaitingInput, 0, true, true), TurnState::AwaitingInput);
}

#[test]
fn the_end_of_a_turn_looks_at_the_player() {
    let mut map = TileGrid::new();
    map.tiles[map_idx(12, 10)] = TileType::Exit;
    let mut amulet = item_at(11, 10);
    amulet.amulet_of_yala = true;
    let mut carried_amulet = carried_by(Entity(0));
    carried_amulet.amulet_of_yala = true;
    let cases = [
        (Point::new(10, 10), 10, TurnState::MonsterTurn),
        (Point::new(11, 10), 10, TurnState::Victory),
        (Point::new(12, 10), 10, TurnState::NextLevel),
        (Point::new(12, 10), 0, TurnState::GameOver),
        (Point::new(11, 10), 0, TurnState::GameOver),
        (Point::new(-1, -1), 10, TurnState::MonsterTurn),
    ];
    for (pos, hp, expected) in cases {
        let mut player = player_at(pos.x, pos.y);
        player.health = Some(Health { current: hp, max: 10 });
        let world = world_of(vec![carried_amulet.clone(), player, amulet.clone()]);
        assert_eq!(amulet_position(&world), Some(Point::new(11, 10)));
        let mut turn = TurnState::PlayerTurn;
        end_turn(&world, &mut turn, &map);
        assert_eq!(turn, expected);
        let mut waiting = TurnState::AwaitingInput;
        end_turn(&world, &mut waiting, &map);
        assert_eq!(waiting, TurnState::AwaitingInput);
    }
    let nobody = world_of(vec![monster_at(12, 10, 0)]);
    assert_eq!(amulet_position(&nobody), None);
    let mut turn = TurnState::MonsterTurn;
    end_turn(&nobody, &mut turn, &map);
    assert_eq!(turn, TurnState::AwaitingInput);
}

// Passes

#[test]
fn each_phase_has_its_pass() {
    assert_eq!(build_input_scheduler().systems, vec![System::PlayerInput]);
    assert_eq!(
        build_player_scheduler().systems,
        vec![System::Movement, System::Combat, System::UseItems, System::Fov, System::EndTurn]
    );
    assert_eq!(
        build_monster_scheduler().systems,
        vec![
            System::RandomMove,
            System::Chasing,
            System::Movement,
            System::Combat,
            System::Fov,
            System::EndTurn
        ]
    );
    assert_eq!(
        build_scheduler(TurnState::AwaitingInput).unwrap().systems,
        build_input_scheduler().systems
    );
    assert_eq!(
        build_scheduler(TurnState::PlayerTurn).unwrap().systems,
        build_player_scheduler().systems
    );
    assert_eq!(
        build_scheduler(TurnState::MonsterTurn).unwrap().systems,
        build_monster_scheduler().systems
    );
    assert!(build_scheduler(TurnState::GameOver).is_none());
    assert!(build_scheduler(TurnState::Victory).is_none());
    assert!(build_scheduler(TurnState::NextLevel).is_none());
}
