//! Movement: entities that want to move are put where they want to be, if
//! they can stand there.

use vstd::prelude::*;
use crate::camera::Camera;
use crate::components::WantsToMove;
use crate::map::{enterable, TileGrid, TileType, NUM_TILES};
use crate::world::{
    all_place_well, files_nothing, places_well, Command, CommandBuffer, CommandView, World,
    WorldView,
};

verus! {

/// What movement has done so far: the commands that wait, the window on
/// display, and the tiles that the player has seen.
pub ghost struct Moved {
    pub commands: Seq<CommandView>,
    pub camera: Camera,
    pub revealed: Seq<bool>,
}

/// The tiles seen once those in view join those seen before.
pub open spec fn seen_with(revealed: Seq<bool>, visible: Seq<bool>) -> Seq<bool> {
    Seq::new(NUM_TILES as nat, |i: int| revealed[i] || visible[i])
}

/// What one intent to move leads to. Nothing happens where the destination
/// cannot be entered. Else the mover is given the destination as its
/// position; a mover with a field of view is given one that is out of date;
/// and where that mover is the player, the window is centred on the
/// destination and the tiles that were in view count as seen.
pub open spec fn spec_movement(
    w: WorldView,
    tiles: Seq<TileType>,
    before: Moved,
    m: WantsToMove,
) -> Moved {
    if !enterable(tiles, m.destination) {
        before
    } else {
        let placed = before.commands.push(CommandView::AddPosition(m.entity, m.destination));
        if w.alive(m.entity) && w.get(m.entity).field_of_view.is_some() {
            let fov = w.get(m.entity).field_of_view.unwrap();
            let commands = placed.push(CommandView::AddFieldOfView(m.entity, fov.dirty()));
            if w.get(m.entity).player.is_some() {
                Moved {
                    commands,
                    camera: Camera::centered(m.destination),
                    revealed: seen_with(before.revealed, fov.visible_tiles),
                }
            } else {
                Moved { commands, ..before }
            }
        } else {
            Moved { commands: placed, ..before }
        }
    }
}

/// What the first `n` of `moves` lead to, taken in order.
pub open spec fn spec_movement_upto(
    w: WorldView,
    tiles: Seq<TileType>,
    before: Moved,
    moves: Seq<WantsToMove>,
    n: int,
) -> Moved
    decreases n,
{
    if n <= 0 {
        before
    } else {
        spec_movement(w, tiles, spec_movement_upto(w, tiles, before, moves, n - 1), moves[n - 1])
    }
}

/// Whether every position that the commands from `from` on give can be entered.
pub open spec fn commits_enterable(commands: Seq<CommandView>, tiles: Seq<TileType>, from: int) -> bool {
    forall|k: int|
        from <= k < commands.len() ==> (#[trigger] commands[k] matches CommandView::AddPosition(_, p)
            ==> enterable(tiles, p))
}

/// Movement gives no entity a position off the grid or on a wall: every
/// position among the commands that the moves add can be entered, and the
/// commands that waited before stay as they were.
pub proof fn lemma_movement_commits_enterable(
    w: WorldView,
    tiles: Seq<TileType>,
    before: Moved,
    moves: Seq<WantsToMove>,
    n: int,
)
    requires
        0 <= n <= moves.len(),
    ensures
        before.commands.len() <= spec_movement_upto(w, tiles, before, moves, n).commands.len(),
        spec_movement_upto(w, tiles, before, moves, n).commands.subrange(
            0,
            before.commands.len() as int,
        ) == before.commands,
        commits_enterable(
            spec_movement_upto(w, tiles, before, moves, n).commands,
            tiles,
            before.commands.len() as int,
        ),
        files_nothing(
            spec_movement_upto(w, tiles, before, moves, n).commands,
            before.commands.len() as int,
        ),
    decreases n,
{
    if n > 0 {
        lemma_movement_commits_enterable(w, tiles, before, moves, n - 1);
        let mid = spec_movement_upto(w, tiles, before, moves, n - 1);
        let after = spec_movement(w, tiles, mid, moves[n - 1]);
        assert(after.commands.subrange(0, before.commands.len() as int) =~= mid.commands.subrange(
            0,
            before.commands.len() as int,
        ));
        assert forall|k: int| before.commands.len() <= k < after.commands.len() implies (
        #[trigger] after.commands[k] matches CommandView::AddPosition(_, p) ==> enterable(
            tiles,
            p,
        )) by {
            if k < mid.commands.len() {
                assert(after.commands[k] == mid.commands[k]);
            }
        }
        assert forall|k: int| before.commands.len() <= k < after.commands.len() implies !(
        #[trigger] after.commands[k] is Move) && !(after.commands[k] is Attack) && !(
        after.commands[k] is Activate) by {
            if k < mid.commands.len() {
                assert(after.commands[k] == mid.commands[k]);
            }
        }
    } else {
        assert(before.commands.subrange(0, before.commands.len() as int) =~= before.commands);
    }
}

/// What movement queues puts nothing on a tile that cannot be entered.
pub proof fn lemma_movement_places_well(
    w: WorldView,
    tiles: Seq<TileType>,
    before: Moved,
    moves: Seq<WantsToMove>,
    n: int,
)
    requires
        0 <= n <= moves.len(),
    ensures
        all_place_well(
            spec_movement_upto(w, tiles, before, moves, n).commands,
            tiles,
            before.commands.len() as int,
        ),
    decreases n,
{
    if n > 0 {
        lemma_movement_places_well(w, tiles, before, moves, n - 1);
        lemma_movement_commits_enterable(w, tiles, before, moves, n - 1);
        let mid = spec_movement_upto(w, tiles, before, moves, n - 1);
        let after = spec_movement(w, tiles, mid, moves[n - 1]);
        assert forall|k: int| before.commands.len() <= k < after.commands.len() implies places_well(
            #[trigger] after.commands[k],
            tiles,
        ) by {
            if k < mid.commands.len() {
                assert(after.commands[k] == mid.commands[k]);
            }
        }
    }
}

/// Marks as seen every tile that is in view.
pub fn reveal_tiles(map: &mut TileGrid, visible: &Vec<bool>)
    requires
        old(map).wf(),
        visible.len() == NUM_TILES,
    ensures
        final(map).wf(),
        final(map).tiles == old(map).tiles,
        final(map).revealed_tiles@ == seen_with(old(map).revealed_tiles@, visible@),
{
    let mut i: usize = 0;
    while i < NUM_TILES
        invariant
            map.wf(),
            visible.len() == NUM_TILES,
            i <= NUM_TILES,
            map.tiles == old(map).tiles,
            forall|j: int|
                0 <= j < NUM_TILES ==> #[trigger] map.revealed_tiles[j] == (old(map).revealed_tiles[j]
                    || (j < i && visible[j])),
        decreases NUM_TILES - i,
    {
        if visible[i] {
            map.revealed_tiles.set(i, true);
        }
        i = i + 1;
    }
    assert(map.revealed_tiles@ =~= seen_with(old(map).revealed_tiles@, visible@));
}

/// Carries out one intent to move.
pub fn movement(
    want_move: &WantsToMove,
    map: &mut TileGrid,
    camera: &mut Camera,
    ecs: &World,
    commands: &mut CommandBuffer,
)
    requires
        old(map).wf(),
        ecs.wf(),
        old(commands).wf(),
    ensures
        final(map).wf(),
        final(map).tiles == old(map).tiles,
        final(commands).wf(),
        (Moved {
            commands: final(commands)@,
            camera: *final(camera),
            revealed: final(map).revealed_tiles@,
        }) == spec_movement(
            ecs@,
            old(map).tiles@,
            Moved {
                commands: old(commands)@,
                camera: *old(camera),
                revealed: old(map).revealed_tiles@,
            },
            *want_move,
        ),
{
    if map.can_enter_tile(want_move.destination) {
        commands.add(Command::AddPosition(want_move.entity, want_move.destination));
        if let Some(entry) = ecs.entry(want_move.entity) {
            if let Some(fov) = &entry.field_of_view {
                assert(entry.wf());
                commands.add(Command::AddFieldOfView(want_move.entity, fov.clone_dirty()));
                if entry.player.is_some() {
                    camera.on_player_move(want_move.destination);
                    reveal_tiles(map, &fov.visible_tiles);
                }
            }
        }
    }
}

/// Carries out the intents to move in the order in which they were filed,
/// and leaves none behind. No position that results lies off the grid or
/// on a wall.
pub fn movement_system(
    world: &mut World,
    map: &mut TileGrid,
    camera: &mut Camera,
    commands: &mut CommandBuffer,
)
    requires
        old(map).wf(),
        old(world).wf(),
        old(commands).wf(),
    ensures
        final(map).wf(),
        final(map).tiles == old(map).tiles,
        final(world).wf(),
        final(commands).wf(),
        final(world)@ == (WorldView { wants_to_move: Seq::empty(), ..old(world)@ }),
        (Moved {
            commands: final(commands)@,
            camera: *final(camera),
            revealed: final(map).revealed_tiles@,
        }) == spec_movement_upto(
            old(world)@,
            old(map).tiles@,
            Moved {
                commands: old(commands)@,
                camera: *old(camera),
                revealed: old(map).revealed_tiles@,
            },
            old(world)@.wants_to_move,
            old(world)@.wants_to_move.len() as int,
        ),
        commits_enterable(final(commands)@, old(map).tiles@, old(commands)@.len() as int),
        files_nothing(final(commands)@, old(commands)@.len() as int),
{
    let ghost start = Moved {
        commands: commands@,
        camera: *camera,
        revealed: map.revealed_tiles@,
    };
    let mut i: usize = 0;
    while i < world.wants_to_move.len()
        invariant
            map.wf(),
            map.tiles == old(map).tiles,
            world.wf(),
            commands.wf(),
            *world == *old(world),
            i <= world.wants_to_move.len(),
            (Moved { commands: commands@, camera: *camera, revealed: map.revealed_tiles@ })
                == spec_movement_upto(
                world@,
                map.tiles@,
                start,
                world@.wants_to_move,
                i as int,
            ),
        decreases world.wants_to_move.len() - i,
    {
        let want_move = world.wants_to_move[i];
        movement(&want_move, map, camera, world, commands);
        i = i + 1;
    }
    proof {
        lemma_movement_commits_enterable(
            world@,
            map.tiles@,
            start,
            world@.wants_to_move,
            world@.wants_to_move.len() as int,
        );
    }
    world.wants_to_move.clear();
    assert(world@.entries =~= old(world)@.entries);
    assert(world@.wants_to_move =~= Seq::empty());
}

} // verus!
