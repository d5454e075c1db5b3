//! Item use: potions heal, maps show the level, and what was used is gone.

use vstd::prelude::*;
use crate::components::{all_tiles, ActivateItem, ComponentsView, Health};
use crate::map::{TileGrid, NUM_TILES};
use crate::systems::combat::clamp_i32;
use crate::world::{
    files_nothing, keeps_places, places_nothing, row_position, Command, CommandBuffer,
    CommandView, World, WorldView,
};

verus! {

/// The health after a potion of the given strength: what was there and
/// what the potion gives, but no more than the most that there can be.
pub open spec fn spec_heal(health: Health, amount: i32) -> Health {
    let raised = health.current + amount;
    Health {
        current: clamp_i32(
            if raised < health.max {
                raised
            } else {
                health.max as int
            },
        ),
        max: health.max,
    }
}

pub fn heal(health: Health, amount: i32) -> (healed: Health)
    ensures
        healed == spec_heal(health, amount),
{
    let raised: i64 = health.current as i64 + amount as i64;
    let capped: i64 = if raised < health.max as i64 {
        raised
    } else {
        health.max as i64
    };
    let current: i32 = if capped < -0x8000_0000 {
        i32::MIN
    } else {
        capped as i32
    };
    Health { current, max: health.max }
}

/// A potion never leaves more health than the most that there can be, and
/// where the health stays in the range of the numbers at hand it leaves
/// exactly the lesser of that and the sum.
pub proof fn lemma_heal_clamped(health: Health, amount: i32)
    ensures
        spec_heal(health, amount).max == health.max,
        spec_heal(health, amount).current <= health.max,
        health.current + amount >= health.max ==> spec_heal(health, amount).current == health.max,
        i32::MIN <= health.current + amount < health.max ==> spec_heal(health, amount).current
            == health.current + amount,
{
}

/// The world, the commands that wait and the tiles seen while the items are used.
pub ghost struct Used {
    pub world: WorldView,
    pub commands: Seq<CommandView>,
    pub revealed: Seq<bool>,
}

/// What the use of one item leads to. An item that lives and heals raises
/// the health of its user, if the user lives and has health; one that is a
/// map of the level makes every tile count as seen. The despawning of the
/// item is queued in any case.
pub open spec fn spec_use_item(before: Used, act: ActivateItem) -> Used {
    let w = before.world;
    let commands = before.commands.push(CommandView::Remove(act.item));
    if w.alive(act.item) {
        let item = w.get(act.item);
        let world = if item.healing.is_some() && w.alive(act.used_by) && w.get(
            act.used_by,
        ).health.is_some() {
            let user = w.get(act.used_by);
            w.with(
                act.used_by,
                ComponentsView {
                    health: Some(spec_heal(user.health.unwrap(), item.healing.unwrap().amount)),
                    ..user
                },
            )
        } else {
            w
        };
        let revealed = if item.dungeon_map {
            all_tiles()
        } else {
            before.revealed
        };
        Used { world, commands, revealed }
    } else {
        Used { commands, ..before }
    }
}

/// What the first `n` of `activations` lead to, taken in order.
pub open spec fn spec_use_items_upto(before: Used, activations: Seq<ActivateItem>, n: int) -> Used
    decreases n,
{
    if n <= 0 {
        before
    } else {
        spec_use_item(spec_use_items_upto(before, activations, n - 1), activations[n - 1])
    }
}

/// The use of items heals, shows and despawns, and does nothing else:
/// what it queues files no intent, the intents that wait stay as they are,
/// and no row comes or goes.
pub proof fn lemma_use_items_frame(before: Used, activations: Seq<ActivateItem>, n: int)
    requires
        0 <= n <= activations.len(),
    ensures
        ({
            let after = spec_use_items_upto(before, activations, n);
            &&& after.world.entries.len() == before.world.entries.len()
            &&& after.world.wants_to_move == before.world.wants_to_move
            &&& after.world.wants_to_attack == before.world.wants_to_attack
            &&& after.world.activations == before.world.activations
            &&& before.commands.len() <= after.commands.len()
            &&& after.commands.subrange(0, before.commands.len() as int) == before.commands
            &&& files_nothing(after.commands, before.commands.len() as int)
            &&& places_nothing(after.commands, before.commands.len() as int)
            &&& keeps_places(before.world, after.world)
        }),
    decreases n,
{
    if n > 0 {
        lemma_use_items_frame(before, activations, n - 1);
        let mid = spec_use_items_upto(before, activations, n - 1);
        let after = spec_use_item(mid, activations[n - 1]);
        assert(after.commands.subrange(0, before.commands.len() as int) =~= mid.commands.subrange(
            0,
            before.commands.len() as int,
        ));
        assert forall|k: int| before.commands.len() <= k < after.commands.len() implies !(
        #[trigger] after.commands[k] is Move) && !(after.commands[k] is Attack) && !(
        after.commands[k] is Activate) by {
            if k < mid.commands.len() {
                assert(after.commands[k] == mid.commands[k]);
            }
        }
        assert forall|k: int| before.commands.len() <= k < after.commands.len() implies !(
        #[trigger] after.commands[k] is Push) && !(after.commands[k] is AddPosition) by {
            if k < mid.commands.len() {
                assert(after.commands[k] == mid.commands[k]);
            }
        }
        assert forall|i: int| 0 <= i < before.world.entries.len() implies (#[trigger] row_position(
            after.world.entries[i],
        )).is_none() || row_position(after.world.entries[i]) == row_position(
            before.world.entries[i],
        ) by {
            assert(row_position(mid.world.entries[i]).is_none() || row_position(
                mid.world.entries[i],
            ) == row_position(before.world.entries[i]));
        }
    } else {
        assert(before.commands.subrange(0, before.commands.len() as int) =~= before.commands);
    }
}

/// Makes every tile count as seen.
pub fn reveal_all(map: &mut TileGrid)
    requires
        old(map).wf(),
    ensures
        final(map).wf(),
        final(map).tiles == old(map).tiles,
        final(map).revealed_tiles@ == all_tiles(),
{
    let mut i: usize = 0;
    while i < NUM_TILES
        invariant
            map.wf(),
            i <= NUM_TILES,
            map.tiles == old(map).tiles,
            forall|j: int| 0 <= j < i ==> #[trigger] map.revealed_tiles[j],
        decreases NUM_TILES - i,
    {
        map.revealed_tiles.set(i, true);
        i = i + 1;
    }
    assert(map.revealed_tiles@ =~= all_tiles());
}

/// Carries out the use of one item.
pub fn use_one(
    world: &mut World,
    act: &ActivateItem,
    commands: &mut CommandBuffer,
    map: &mut TileGrid,
)
    requires
        old(world).wf(),
        old(commands).wf(),
        old(map).wf(),
    ensures
        final(world).wf(),
        final(commands).wf(),
        final(map).wf(),
        final(map).tiles == old(map).tiles,
        (Used {
            world: final(world)@,
            commands: final(commands)@,
            revealed: final(map).revealed_tiles@,
        }) == spec_use_item(
            Used {
                world: old(world)@,
                commands: old(commands)@,
                revealed: old(map).revealed_tiles@,
            },
            *act,
        ),
{
    let (healing, mapper) = match world.entry(act.item) {
        Some(item) => (item.healing, item.dungeon_map),
        None => (None, false),
    };
    if let Some(healing) = healing {
        let health = match world.entry(act.used_by) {
            Some(user) => user.health,
            None => None,
        };
        if let Some(health) = health {
            let healed = heal(health, healing.amount);
            match &mut world.entries[act.used_by.0] {
                Some(c) => {
                    c.health = Some(healed);
                },
                None => {},
            }
            assert(world@.entries =~= old(world)@.with(
                act.used_by,
                ComponentsView { health: Some(healed), ..old(world)@.get(act.used_by) },
            ).entries);
        }
    }
    if mapper {
        reveal_all(map);
    }
    commands.add(Command::Remove(act.item));
}

/// Carries out the uses of items in the order in which they were filed,
/// and leaves none behind.
pub fn use_items(ecs: &mut World, commands: &mut CommandBuffer, map: &mut TileGrid)
    requires
        old(ecs).wf(),
        old(commands).wf(),
        old(map).wf(),
    ensures
        final(ecs).wf(),
        final(commands).wf(),
        final(map).wf(),
        final(map).tiles == old(map).tiles,
        ({
            let used = spec_use_items_upto(
                Used {
                    world: old(ecs)@,
                    commands: old(commands)@,
                    revealed: old(map).revealed_tiles@,
                },
                old(ecs)@.activations,
                old(ecs)@.activations.len() as int,
            );
            &&& final(ecs)@ == (WorldView { activations: Seq::empty(), ..used.world })
            &&& final(commands)@ == used.commands
            &&& final(map).revealed_tiles@ == used.revealed
        }),
{
    let ghost start = Used {
        world: ecs@,
        commands: commands@,
        revealed: map.revealed_tiles@,
    };
    let ghost activations = ecs@.activations;
    let mut i: usize = 0;
    while i < ecs.activations.len()
        invariant
            ecs.wf(),
            commands.wf(),
            map.wf(),
            map.tiles == old(map).tiles,
            ecs@.activations == activations,
            i <= activations.len(),
            (Used { world: ecs@, commands: commands@, revealed: map.revealed_tiles@ })
                == spec_use_items_upto(start, activations, i as int),
        decreases activations.len() - i,
    {
        let act = ecs.activations[i];
        use_one(ecs, &act, commands, map);
        i = i + 1;
    }
    let ghost used = ecs@;
    ecs.activations.clear();
    assert(ecs@.entries =~= used.entries);
    assert(ecs@.activations =~= Seq::empty());
}

} // verus!
