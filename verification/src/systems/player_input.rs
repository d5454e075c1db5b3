//! Player input: one command of the player becomes what the player intends.

use vstd::prelude::*;
use crate::components::{ActivateItem, Carried, ComponentsView, Entity, WantsToAttack, WantsToMove};
use crate::geometry::Point;
use crate::systems::random_move::{offset, spec_offset};
use crate::systems::Defect;
use crate::turn_state::TurnState;
use crate::world::{
    lemma_places_nothing_joined, places_nothing, Command, CommandBuffer, CommandView, World,
    WorldView,
};

verus! {

/// What the player can ask for.
#[derive(Clone, Copy, Debug, PartialEq, Eq, Structural)]
pub enum Action {
    Left,
    Right,
    Up,
    Down,
    /// Picks up what lies where the player stands.
    PickUp,
    /// Uses the item in the given place of the pack, the first place being 0.
    UseItem(usize),
    /// Lets the turn pass.
    Wait,
}

/// The step that an action asks for; no step for an action that asks for none.
pub open spec fn spec_delta(action: Action) -> Point {
    match action {
        Action::Left => Point { x: -1i32, y: 0 },
        Action::Right => Point { x: 1, y: 0 },
        Action::Up => Point { x: 0, y: -1i32 },
        Action::Down => Point { x: 0, y: 1 },
        _ => Point { x: 0, y: 0 },
    }
}

/// Whether a row is an enemy that stands at `dest`.
pub open spec fn enemy_at(row: Option<ComponentsView>, dest: Point) -> bool {
    row.is_some() && row.unwrap().enemy && row.unwrap().position == Some(dest)
}

/// The attacks of `player` on the enemies among the first `n` rows that stand at `dest`.
pub open spec fn enemy_attacks(w: WorldView, player: Entity, dest: Point, n: int) -> Seq<
    CommandView,
>
    decreases n,
{
    if n <= 0 {
        Seq::empty()
    } else {
        let before = enemy_attacks(w, player, dest, n - 1);
        if enemy_at(w.entries[n - 1], dest) {
            before.push(
                CommandView::Attack(
                    WantsToAttack { attacker: player, victim: Entity((n - 1) as usize) },
                ),
            )
        } else {
            before
        }
    }
}

/// What a step of the player to `dest` files: an attack on every enemy
/// that stands there, and the intent to move where none does.
pub open spec fn spec_step_to(w: WorldView, player: Entity, dest: Point) -> Seq<CommandView> {
    let attacks = enemy_attacks(w, player, dest, w.entries.len() as int);
    if attacks.len() == 0 {
        seq![CommandView::Move(WantsToMove { entity: player, destination: dest })]
    } else {
        attacks
    }
}

/// Whether a row is an item in the pack of `owner`.
pub open spec fn packed(row: Option<ComponentsView>, owner: Entity) -> bool {
    row.is_some() && row.unwrap().item && row.unwrap().carried == Some(Carried(owner))
}

/// The items among the first `n` rows that lie in the pack of `owner`, in the order of the rows.
pub open spec fn pack(w: WorldView, owner: Entity, n: int) -> Seq<Entity>
    decreases n,
{
    if n <= 0 {
        Seq::empty()
    } else {
        let before = pack(w, owner, n - 1);
        if packed(w.entries[n - 1], owner) {
            before.push(Entity((n - 1) as usize))
        } else {
            before
        }
    }
}

/// What the use of the item in place `n` of the pack files: the intent to
/// use it, and nothing where there is no player or the place is empty.
pub open spec fn spec_use_slot(w: WorldView, n: usize) -> Seq<CommandView> {
    match w.player() {
        Some(player) => {
            let items = pack(w, player, w.entries.len() as int);
            if n < items.len() {
                seq![CommandView::Activate(ActivateItem { used_by: player, item: items[n as int] })]
            } else {
                Seq::empty()
            }
        },
        None => Seq::empty(),
    }
}

/// Whether a row is a weapon that `owner` carries.
pub open spec fn wielded(row: Option<ComponentsView>, owner: Entity) -> bool {
    row.is_some() && row.unwrap().weapon && row.unwrap().carried == Some(Carried(owner))
}

/// The despawning of every weapon among the first `n` rows that `owner` carries.
pub open spec fn drop_weapons(w: WorldView, owner: Entity, n: int) -> Seq<CommandView>
    decreases n,
{
    if n <= 0 {
        Seq::empty()
    } else {
        let before = drop_weapons(w, owner, n - 1);
        if wielded(w.entries[n - 1], owner) {
            before.push(CommandView::Remove(Entity((n - 1) as usize)))
        } else {
            before
        }
    }
}

/// Whether a row is an item that lies at `pos`.
pub open spec fn lies_at(row: Option<ComponentsView>, pos: Point) -> bool {
    row.is_some() && row.unwrap().item && row.unwrap().position == Some(pos)
}

/// What the picking up of one item by `player` files: the item leaves its
/// place and goes into the pack; where it is a weapon, the weapons that the
/// player carries are despawned.
pub open spec fn pick_up_one(w: WorldView, player: Entity, i: int) -> Seq<CommandView> {
    let taken = seq![
        CommandView::RemovePosition(Entity(i as usize)),
        CommandView::AddCarried(Entity(i as usize), Carried(player)),
    ];
    if w.entries[i].unwrap().weapon {
        taken + drop_weapons(w, player, w.entries.len() as int)
    } else {
        taken
    }
}

/// What the picking up of the items among the first `n` rows that lie at `pos` files.
pub open spec fn pick_up(w: WorldView, player: Entity, pos: Point, n: int) -> Seq<CommandView>
    decreases n,
{
    if n <= 0 {
        Seq::empty()
    } else {
        let before = pick_up(w, player, pos, n - 1);
        if lies_at(w.entries[n - 1], pos) {
            before + pick_up_one(w, player, n - 1)
        } else {
            before
        }
    }
}

/// What an action of the player, who stands at `pos`, files.
pub open spec fn spec_player_input(w: WorldView, player: Entity, pos: Point, action: Action) -> Seq<
    CommandView,
> {
    match action {
        Action::PickUp => pick_up(w, player, pos, w.entries.len() as int),
        Action::UseItem(n) => spec_use_slot(w, n),
        Action::Wait => Seq::empty(),
        _ => match spec_offset(pos, spec_delta(action)) {
            Some(dest) => spec_step_to(w, player, dest),
            None => Seq::empty(),
        },
    }
}

/// The player and where it stands, if there is a player with a position.
pub open spec fn placed_player(w: WorldView) -> Option<(Entity, Point)> {
    match w.player() {
        Some(player) => match w.get(player).position {
            Some(pos) => Some((player, pos)),
            None => None,
        },
        None => None,
    }
}

/// What a command of the player files spawns nothing and gives nothing a position.
pub proof fn lemma_input_places_nothing(w: WorldView, player: Entity, pos: Point, action: Action)
    ensures
        places_nothing(spec_player_input(w, player, pos, action), 0),
{
    match action {
        Action::PickUp => {
            lemma_pick_up_places_nothing(w, player, pos, w.entries.len() as int);
        },
        Action::UseItem(n) => {},
        Action::Wait => {},
        _ => {
            match spec_offset(pos, spec_delta(action)) {
                Some(dest) => {
                    lemma_enemy_attacks(w, player, dest, w.entries.len() as int);
                },
                None => {},
            }
        },
    }
}

/// Every command among the attacks on enemies is an attack.
pub proof fn lemma_enemy_attacks(w: WorldView, player: Entity, dest: Point, n: int)
    ensures
        forall|k: int|
            0 <= k < enemy_attacks(w, player, dest, n).len() ==> #[trigger] enemy_attacks(
                w,
                player,
                dest,
                n,
            )[k] is Attack,
    decreases n,
{
    if n > 0 {
        lemma_enemy_attacks(w, player, dest, n - 1);
    }
}

/// Every command among the dropping of weapons is a despawning.
pub proof fn lemma_drop_weapons(w: WorldView, owner: Entity, n: int)
    ensures
        places_nothing(drop_weapons(w, owner, n), 0),
    decreases n,
{
    if n > 0 {
        lemma_drop_weapons(w, owner, n - 1);
    }
}

/// The picking up of items spawns nothing and gives nothing a position.
pub proof fn lemma_pick_up_places_nothing(w: WorldView, player: Entity, pos: Point, n: int)
    ensures
        places_nothing(pick_up(w, player, pos, n), 0),
    decreases n,
{
    if n > 0 {
        lemma_pick_up_places_nothing(w, player, pos, n - 1);
        if lies_at(w.entries[n - 1], pos) {
            let one = pick_up_one(w, player, n - 1);
            lemma_drop_weapons(w, player, w.entries.len() as int);
            let taken = seq![
                CommandView::RemovePosition(Entity((n - 1) as usize)),
                CommandView::AddCarried(Entity((n - 1) as usize), Carried(player)),
            ];
            assert(places_nothing(taken, 0));
            lemma_places_nothing_joined(taken, drop_weapons(w, player, w.entries.len() as int));
            lemma_places_nothing_joined(pick_up(w, player, pos, n - 1), one);
        }
    }
}

pub fn delta_of(action: Action) -> (delta: Point)
    ensures
        delta == spec_delta(action),
{
    match action {
        Action::Left => Point::new(-1, 0),
        Action::Right => Point::new(1, 0),
        Action::Up => Point::new(0, -1),
        Action::Down => Point::new(0, 1),
        _ => Point::new(0, 0),
    }
}

/// Files the intent to use the item in place `n` of the player's pack.
pub fn use_item(n: usize, ecs: &World, commands: &mut CommandBuffer) -> (delta: Point)
    requires
        old(commands).wf(),
    ensures
        final(commands).wf(),
        final(commands)@ == old(commands)@ + spec_use_slot(ecs@, n),
        delta == (Point { x: 0, y: 0 }),
{
    assert(commands@ + Seq::<CommandView>::empty() =~= commands@);
    if let Some(player_entity) = ecs.find_player() {
        let mut item_count: usize = 0;
        let mut i: usize = 0;
        while i < ecs.entries.len()
            invariant
                commands.wf(),
                commands@ == old(commands)@,
                ecs@.player() == Some(player_entity),
                i <= ecs.entries.len(),
                item_count == pack(ecs@, player_entity, i as int).len(),
                item_count <= n,
                item_count <= i,
            decreases ecs.entries.len() - i,
        {
            let is_packed = match &ecs.entries[i] {
                Some(c) => c.item && match c.carried {
                    Some(carried) => carried.0.0 == player_entity.0,
                    None => false,
                },
                None => false,
            };
            assert(is_packed == packed(ecs@.entries[i as int], player_entity));
            if is_packed {
                if item_count == n {
                    proof {
                        let found = pack(ecs@, player_entity, i as int + 1);
                        assert(found[n as int] == Entity(i));
                        lemma_pack_prefix(
                            ecs@,
                            player_entity,
                            i as int + 1,
                            ecs.entries.len() as int,
                        );
                        let items = pack(ecs@, player_entity, ecs.entries.len() as int);
                        assert(items[n as int] == found[n as int]);
                    }
                    commands.add(
                        Command::Activate(ActivateItem { used_by: player_entity, item: Entity(i) }),
                    );
                    proof {
                        let items = pack(ecs@, player_entity, ecs.entries.len() as int);
                        let filed = CommandView::Activate(
                            ActivateItem { used_by: player_entity, item: Entity(i) },
                        );
                        assert(ecs@.player() == Some(player_entity));
                        assert(n < items.len());
                        assert(items[n as int] == Entity(i));
                        assert(spec_use_slot(ecs@, n) =~= seq![filed]);
                        assert(commands@ =~= old(commands)@.push(filed));
                        assert(old(commands)@.push(filed) =~= old(commands)@ + seq![filed]);
                    }
                    return Point::zero();
                }
                item_count = item_count + 1;
            }
            i = i + 1;
        }
    }
    Point::zero()
}

/// The pack of the first rows is the start of the pack of more rows.
pub proof fn lemma_pack_prefix(w: WorldView, owner: Entity, m: int, n: int)
    requires
        0 <= m <= n,
    ensures
        pack(w, owner, m).len() <= pack(w, owner, n).len(),
        forall|k: int|
            0 <= k < pack(w, owner, m).len() ==> pack(w, owner, m)[k] == #[trigger] pack(
                w,
                owner,
                n,
            )[k],
    decreases n,
{
    if m < n {
        lemma_pack_prefix(w, owner, m, n - 1);
    }
}

/// Files the despawning of every weapon that `player` carries.
pub fn drop_carried_weapons(ecs: &World, player: Entity, commands: &mut CommandBuffer)
    requires
        old(commands).wf(),
    ensures
        final(commands).wf(),
        final(commands)@ == old(commands)@ + drop_weapons(ecs@, player, ecs@.entries.len() as int),
{
    assert(commands@ + Seq::<CommandView>::empty() =~= commands@);
    let mut i: usize = 0;
    while i < ecs.entries.len()
        invariant
            commands.wf(),
            i <= ecs.entries.len(),
            commands@ == old(commands)@ + drop_weapons(ecs@, player, i as int),
        decreases ecs.entries.len() - i,
    {
        let is_wielded = match &ecs.entries[i] {
            Some(c) => c.weapon && match c.carried {
                Some(carried) => carried.0.0 == player.0,
                None => false,
            },
            None => false,
        };
        assert(is_wielded == wielded(ecs@.entries[i as int], player));
        if is_wielded {
            commands.add(Command::Remove(Entity(i)));
            assert(commands@ =~= old(commands)@ + drop_weapons(ecs@, player, i as int + 1));
        }
        i = i + 1;
    }
}

/// Files the picking up of every item that lies where the player stands.
pub fn pick_up_items(ecs: &World, player: Entity, player_pos: Point, commands: &mut CommandBuffer)
    requires
        old(commands).wf(),
    ensures
        final(commands).wf(),
        final(commands)@ == old(commands)@ + pick_up(
            ecs@,
            player,
            player_pos,
            ecs@.entries.len() as int,
        ),
{
    assert(commands@ + Seq::<CommandView>::empty() =~= commands@);
    let mut i: usize = 0;
    while i < ecs.entries.len()
        invariant
            commands.wf(),
            i <= ecs.entries.len(),
            commands@ == old(commands)@ + pick_up(ecs@, player, player_pos, i as int),
        decreases ecs.entries.len() - i,
    {
        let (here, is_weapon) = match &ecs.entries[i] {
            Some(c) => (
                c.item && match c.position {
                    Some(p) => p == player_pos,
                    None => false,
                },
                c.weapon,
            ),
            None => (false, false),
        };
        assert(here == lies_at(ecs@.entries[i as int], player_pos));
        if here {
            let ghost before = commands@;
            commands.add(Command::RemovePosition(Entity(i)));
            commands.add(Command::AddCarried(Entity(i), Carried(player)));
            if is_weapon {
                drop_carried_weapons(ecs, player, commands);
            }
            assert(commands@ =~= before + pick_up_one(ecs@, player, i as int));
            assert(commands@ =~= old(commands)@ + pick_up(ecs@, player, player_pos, i as int + 1));
        }
        i = i + 1;
    }
}

/// Files what a step of the player to `destination` leads to.
pub fn step_to(ecs: &World, player: Entity, destination: Point, commands: &mut CommandBuffer)
    requires
        old(commands).wf(),
    ensures
        final(commands).wf(),
        final(commands)@ == old(commands)@ + spec_step_to(ecs@, player, destination),
{
    assert(commands@ + Seq::<CommandView>::empty() =~= commands@);
    let mut hit_something = false;
    let mut i: usize = 0;
    while i < ecs.entries.len()
        invariant
            commands.wf(),
            i <= ecs.entries.len(),
            hit_something == (enemy_attacks(ecs@, player, destination, i as int).len() > 0),
            commands@ == old(commands)@ + enemy_attacks(ecs@, player, destination, i as int),
        decreases ecs.entries.len() - i,
    {
        let here = match &ecs.entries[i] {
            Some(c) => c.enemy && match c.position {
                Some(p) => p == destination,
                None => false,
            },
            None => false,
        };
        assert(here == enemy_at(ecs@.entries[i as int], destination));
        if here {
            hit_something = true;
            commands.add(Command::Attack(WantsToAttack { attacker: player, victim: Entity(i) }));
            assert(commands@ =~= old(commands)@ + enemy_attacks(
                ecs@,
                player,
                destination,
                i as int + 1,
            ));
        }
        i = i + 1;
    }
    if !hit_something {
        commands.add(Command::Move(WantsToMove { entity: player, destination }));
        assert(commands@ =~= old(commands)@ + spec_step_to(ecs@, player, destination));
    }
}

/// Turns the command of the player, if there is one, into what the player
/// intends, and lets the player's turn begin. Without a command nothing
/// happens. With a command but without a player that has a position
/// nothing happens either, and the defect is reported.
pub fn player_input(
    ecs: &World,
    commands: &mut CommandBuffer,
    key: &Option<Action>,
    turn_state: &mut TurnState,
) -> (r: Result<(), Defect>)
    requires
        old(commands).wf(),
    ensures
        final(commands).wf(),
        match (*key, placed_player(ecs@)) {
            (Some(action), Some((player, pos))) => {
                &&& r.is_ok()
                &&& *final(turn_state) == TurnState::PlayerTurn
                &&& final(commands)@ == old(commands)@ + spec_player_input(
                    ecs@,
                    player,
                    pos,
                    action,
                )
            },
            (Some(_), None) => {
                &&& r == Err::<(), Defect>(Defect::NoPlayer)
                &&& *final(turn_state) == *old(turn_state)
                &&& final(commands)@ == old(commands)@
            },
            (None, _) => {
                &&& r.is_ok()
                &&& *final(turn_state) == *old(turn_state)
                &&& final(commands)@ == old(commands)@
            },
        },
{
    if let Some(action) = *key {
        let player = match ecs.find_player() {
            Some(player) => player,
            None => {
                return Err(Defect::NoPlayer);
            },
        };
        let player_pos = match ecs.entry(player) {
            Some(c) => match c.position {
                Some(pos) => pos,
                None => {
                    return Err(Defect::NoPlayer);
                },
            },
            None => {
                return Err(Defect::NoPlayer);
            },
        };
        assert(commands@ + Seq::<CommandView>::empty() =~= commands@);
        match action {
            Action::PickUp => {
                pick_up_items(ecs, player, player_pos, commands);
            },
            Action::UseItem(n) => {
                use_item(n, ecs, commands);
            },
            Action::Wait => {},
            _ => {
                if let Some(destination) = offset(player_pos, delta_of(action)) {
                    step_to(ecs, player, destination, commands);
                }
            },
        }
        *turn_state = TurnState::PlayerTurn;
    }
    Ok(())
}

} // verus!
