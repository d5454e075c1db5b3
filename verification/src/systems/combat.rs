//! Combat: attacks take health from their victims, and victims other than
//! the player whose health is spent are despawned.

use vstd::prelude::*;
use crate::components::{Carried, ComponentsView, Entity, Health, WantsToAttack};
use crate::world::{
    files_nothing, keeps_places, places_nothing, row_position, Command, CommandBuffer,
    CommandView, World, WorldView,
};

verus! {

/// The damage that the weapons add which `attacker` carries, summed over the first `n` rows.
pub open spec fn weapon_damage(w: WorldView, attacker: Entity, n: int) -> int
    decreases n,
{
    if n <= 0 {
        0
    } else {
        weapon_damage(w, attacker, n - 1) + carried_damage(w.entries[n - 1], attacker)
    }
}

/// The damage that a row adds to the blows of `attacker`: that of an entity in its pack.
pub open spec fn carried_damage(row: Option<ComponentsView>, attacker: Entity) -> int {
    match row {
        Some(c) => if c.carried == Some(Carried(attacker)) && c.damage.is_some() {
            c.damage.unwrap().0 as int
        } else {
            0
        },
        None => 0,
    }
}

/// The damage that `attacker` deals with its hands: none where it has no
/// damage of its own or does not live.
pub open spec fn base_damage(w: WorldView, attacker: Entity) -> int {
    if w.alive(attacker) && w.get(attacker).damage.is_some() {
        w.get(attacker).damage.unwrap().0 as int
    } else {
        0
    }
}

/// The damage of one blow of `attacker`: its own and that of all it carries.
pub open spec fn final_damage(w: WorldView, attacker: Entity) -> int {
    base_damage(w, attacker) + weapon_damage(w, attacker, w.entries.len() as int)
}

/// The value nearest to `v` that an `i32` holds.
pub open spec fn clamp_i32(v: int) -> i32 {
    if v < i32::MIN {
        i32::MIN
    } else if v > i32::MAX {
        i32::MAX
    } else {
        v as i32
    }
}

/// The health after a blow of the given damage.
pub open spec fn spec_hit(health: Health, damage: int) -> Health {
    Health { current: clamp_i32(health.current - damage), max: health.max }
}

/// The world and the commands that wait while the attacks are worked off.
pub ghost struct Fought {
    pub world: WorldView,
    pub commands: Seq<CommandView>,
}

/// What one attack leads to. A victim that lives and has health loses the
/// damage of the blow; where less than one point is left and the victim is
/// not the player, its despawning is queued. Any other attack does nothing.
pub open spec fn spec_combat(before: Fought, a: WantsToAttack) -> Fought {
    let w = before.world;
    if w.alive(a.victim) && w.get(a.victim).health.is_some() {
        let c = w.get(a.victim);
        let hurt = spec_hit(c.health.unwrap(), final_damage(w, a.attacker));
        let world = w.with(a.victim, ComponentsView { health: Some(hurt), ..c });
        if hurt.current < 1 && c.player.is_none() {
            Fought { world, commands: before.commands.push(CommandView::Remove(a.victim)) }
        } else {
            Fought { world, commands: before.commands }
        }
    } else {
        before
    }
}

/// What the first `n` of `attacks` lead to, taken in order.
pub open spec fn spec_combat_upto(before: Fought, attacks: Seq<WantsToAttack>, n: int) -> Fought
    decreases n,
{
    if n <= 0 {
        before
    } else {
        spec_combat(spec_combat_upto(before, attacks, n - 1), attacks[n - 1])
    }
}

/// An attack queues the despawning of its victim exactly when the victim
/// has health, less than one point of it is left after the blow, and the
/// victim is not the player. It queues nothing else.
pub proof fn lemma_combat_despawns(before: Fought, a: WantsToAttack)
    ensures
        ({
            let after = spec_combat(before, a);
            let w = before.world;
            let spent = w.alive(a.victim) && w.get(a.victim).health.is_some() && after.world.get(
                a.victim,
            ).health.unwrap().current < 1;
            &&& after.commands == (if spent && w.get(a.victim).player.is_none() {
                before.commands.push(CommandView::Remove(a.victim))
            } else {
                before.commands
            })
            &&& w.alive(a.victim) && w.get(a.victim).player.is_some() ==> after.commands
                == before.commands
        }),
{
}

/// Where what is left of the victim's health fits into an `i32`, an attack
/// takes exactly the damage of the blow from the health of its victim and
/// leaves the rest of the victim as it is; the despawning of the victim
/// is queued exactly when less than one point is left and the victim is not
/// the player, and that of the player never.
pub proof fn lemma_blow_within_range(before: Fought, a: WantsToAttack)
    requires
        before.world.alive(a.victim),
        before.world.get(a.victim).health.is_some(),
        i32::MIN <= before.world.get(a.victim).health.unwrap().current - final_damage(
            before.world,
            a.attacker,
        ) <= i32::MAX,
    ensures
        ({
            let after = spec_combat(before, a);
            let c = before.world.get(a.victim);
            let left = c.health.unwrap().current - final_damage(before.world, a.attacker);
            &&& after.world.alive(a.victim)
            &&& after.world.get(a.victim).health.unwrap().current == left
            &&& after.world.get(a.victim) == (ComponentsView {
                health: after.world.get(a.victim).health,
                ..c
            })
            &&& after.world.get(a.victim).health.unwrap().max == c.health.unwrap().max
            &&& after.commands == (if left < 1 && c.player.is_none() {
                before.commands.push(CommandView::Remove(a.victim))
            } else {
                before.commands
            })
            &&& c.player.is_some() ==> after.commands == before.commands
        }),
{
}

/// The attacks despawn and hurt, and do nothing else: what they queue
/// files no intent, the intents that wait stay as they are, and no row
/// comes or goes.
pub proof fn lemma_combat_frame(before: Fought, attacks: Seq<WantsToAttack>, n: int)
    requires
        0 <= n <= attacks.len(),
    ensures
        ({
            let after = spec_combat_upto(before, attacks, n);
            &&& after.world.entries.len() == before.world.entries.len()
            &&& after.world.wants_to_move == before.world.wants_to_move
            &&& after.world.wants_to_attack == before.world.wants_to_attack
            &&& after.world.activations == before.world.activations
            &&& before.commands.len() <= after.commands.len()
            &&& after.commands.subrange(0, before.commands.len() as int) == before.commands
            &&& files_nothing(after.commands, before.commands.len() as int)
            &&& places_nothing(after.commands, before.commands.len() as int)
            &&& keeps_places(before.world, after.world)
        }),
    decreases n,
{
    if n > 0 {
        lemma_combat_frame(before, attacks, n - 1);
        let mid = spec_combat_upto(before, attacks, n - 1);
        let after = spec_combat(mid, attacks[n - 1]);
        assert(after.commands.subrange(0, before.commands.len() as int) =~= mid.commands.subrange(
            0,
            before.commands.len() as int,
        ));
        assert forall|k: int| before.commands.len() <= k < after.commands.len() implies !(
        #[trigger] after.commands[k] is Move) && !(after.commands[k] is Attack) && !(
        after.commands[k] is Activate) by {
            if k < mid.commands.len() {
                assert(after.commands[k] == mid.commands[k]);
            }
        }
        assert forall|k: int| before.commands.len() <= k < after.commands.len() implies !(
        #[trigger] after.commands[k] is Push) && !(after.commands[k] is AddPosition) by {
            if k < mid.commands.len() {
                assert(after.commands[k] == mid.commands[k]);
            }
        }
        assert forall|i: int| 0 <= i < before.world.entries.len() implies (#[trigger] row_position(
            after.world.entries[i],
        )).is_none() || row_position(after.world.entries[i]) == row_position(
            before.world.entries[i],
        ) by {
            assert(row_position(mid.world.entries[i]).is_none() || row_position(
                mid.world.entries[i],
            ) == row_position(before.world.entries[i]));
        }
    } else {
        assert(before.commands.subrange(0, before.commands.len() as int) =~= before.commands);
    }
}

/// The damage of one blow of `attacker`.
pub fn damage_of(world: &World, attacker: Entity) -> (damage: i128)
    ensures
        damage == final_damage(world@, attacker),
        -0x1_0000_0000_0000_0000_0000_0000 <= damage <= 0x1_0000_0000_0000_0000_0000_0000,
{
    let base: i128 = match world.entry(attacker) {
        Some(c) => match c.damage {
            Some(d) => d.0 as i128,
            None => 0,
        },
        None => 0,
    };
    let mut weapons: i128 = 0;
    let mut i: usize = 0;
    while i < world.entries.len()
        invariant
            i <= world.entries.len(),
            weapons == weapon_damage(world@, attacker, i as int),
            -0x8000_0000 * i <= weapons <= 0x8000_0000 * i,
        decreases world.entries.len() - i,
    {
        let add: i128 = match &world.entries[i] {
            Some(c) => match (c.carried, c.damage) {
                (Some(carried), Some(d)) => if carried.0.0 == attacker.0 {
                    d.0 as i128
                } else {
                    0
                },
                _ => 0,
            },
            None => 0,
        };
        assert(add == carried_damage(world@.entries[i as int], attacker));
        weapons = weapons + add;
        i = i + 1;
    }
    base + weapons
}

/// The health after a blow of the given damage.
pub fn hit(health: Health, damage: i128) -> (hurt: Health)
    requires
        -0x1_0000_0000_0000_0000_0000_0000 <= damage <= 0x1_0000_0000_0000_0000_0000_0000,
    ensures
        hurt == spec_hit(health, damage as int),
{
    let left: i128 = health.current as i128 - damage;
    let current: i32 = if left < -0x8000_0000 {
        i32::MIN
    } else if left > 0x7fff_ffff {
        i32::MAX
    } else {
        left as i32
    };
    Health { current, max: health.max }
}

/// Carries out one attack.
pub fn strike(world: &mut World, attack: &WantsToAttack, commands: &mut CommandBuffer)
    requires
        old(world).wf(),
        old(commands).wf(),
    ensures
        final(world).wf(),
        final(commands).wf(),
        (Fought { world: final(world)@, commands: final(commands)@ }) == spec_combat(
            Fought { world: old(world)@, commands: old(commands)@ },
            *attack,
        ),
{
    let victim = attack.victim;
    let (health, is_player) = match world.entry(victim) {
        Some(c) => (c.health, c.player.is_some()),
        None => (None, false),
    };
    if let Some(health) = health {
        let final_damage = damage_of(world, attack.attacker);
        let hurt = hit(health, final_damage);
        match &mut world.entries[victim.0] {
            Some(c) => {
                c.health = Some(hurt);
            },
            None => {},
        }
        assert(world@.entries =~= old(world)@.with(
            victim,
            ComponentsView { health: Some(hurt), ..old(world)@.get(victim) },
        ).entries);
        if hurt.current < 1 && !is_player {
            commands.add(Command::Remove(victim));
        }
    }
}

/// Carries out the attacks in the order in which they were filed, and
/// leaves none behind.
pub fn combat(ecs: &mut World, commands: &mut CommandBuffer)
    requires
        old(ecs).wf(),
        old(commands).wf(),
    ensures
        final(ecs).wf(),
        final(commands).wf(),
        final(ecs)@ == (WorldView {
            wants_to_attack: Seq::empty(),
            ..spec_combat_upto(
                Fought { world: old(ecs)@, commands: old(commands)@ },
                old(ecs)@.wants_to_attack,
                old(ecs)@.wants_to_attack.len() as int,
            ).world
        }),
        final(commands)@ == spec_combat_upto(
            Fought { world: old(ecs)@, commands: old(commands)@ },
            old(ecs)@.wants_to_attack,
            old(ecs)@.wants_to_attack.len() as int,
        ).commands,
{
    let ghost start = Fought { world: ecs@, commands: commands@ };
    let ghost attacks = ecs@.wants_to_attack;
    let mut i: usize = 0;
    while i < ecs.wants_to_attack.len()
        invariant
            ecs.wf(),
            commands.wf(),
            ecs@.wants_to_attack == attacks,
            i <= attacks.len(),
            (Fought { world: ecs@, commands: commands@ }) == spec_combat_upto(
                start,
                attacks,
                i as int,
            ),
        decreases attacks.len() - i,
    {
        let attack = ecs.wants_to_attack[i];
        strike(ecs, &attack, commands);
        i = i + 1;
    }
    let ghost fought = ecs@;
    ecs.wants_to_attack.clear();
    assert(ecs@.entries =~= fought.entries);
    assert(ecs@.wants_to_attack =~= Seq::empty());
}

} // verus!
