//! The end of a turn: where the game goes from here.

use vstd::prelude::*;
use crate::geometry::Point;
use crate::map::{spec_map_idx, TileGrid, TileType};
use crate::turn_state::TurnState;
use crate::world::{World, WorldView};

verus! {

/// The phase that follows `current` where nothing ends the game or the level.
pub open spec fn spec_advance(current: TurnState) -> TurnState {
    match current {
        TurnState::PlayerTurn => TurnState::MonsterTurn,
        TurnState::MonsterTurn => TurnState::AwaitingInput,
        other => other,
    }
}

/// The phase that follows `current` for a player with `hp` points of
/// health. While input is awaited nothing changes. Else a player without
/// health ends the game; failing that, a player on the amulet wins it;
/// failing that, a player on the way down goes to the next level; and
/// failing that, the turn passes on.
pub open spec fn spec_next_state(current: TurnState, hp: i32, on_amulet: bool, on_exit: bool) -> TurnState {
    if current == TurnState::AwaitingInput {
        TurnState::AwaitingInput
    } else if hp < 1 {
        TurnState::GameOver
    } else if on_amulet {
        TurnState::Victory
    } else if on_exit {
        TurnState::NextLevel
    } else {
        spec_advance(current)
    }
}

pub fn next_state(current: TurnState, hp: i32, on_amulet: bool, on_exit: bool) -> (next: TurnState)
    ensures
        next == spec_next_state(current, hp, on_amulet, on_exit),
{
    if current == TurnState::AwaitingInput {
        TurnState::AwaitingInput
    } else if hp < 1 {
        TurnState::GameOver
    } else if on_amulet {
        TurnState::Victory
    } else if on_exit {
        TurnState::NextLevel
    } else {
        match current {
            TurnState::PlayerTurn => TurnState::MonsterTurn,
            TurnState::MonsterTurn => TurnState::AwaitingInput,
            other => other,
        }
    }
}

/// The position of the first of the first `n` rows that is the amulet and has a position.
pub open spec fn first_amulet(w: WorldView, n: int) -> Option<Point>
    decreases n,
{
    if n <= 0 {
        None
    } else {
        match first_amulet(w, n - 1) {
            Some(p) => Some(p),
            None => match w.entries[n - 1] {
                Some(c) => if c.amulet_of_yala {
                    c.position
                } else {
                    None
                },
                None => None,
            },
        }
    }
}

/// Whether the tile at `p` is the way down.
pub open spec fn is_exit(tiles: Seq<TileType>, p: Point) -> bool {
    TileGrid::spec_in_bounds(p) && tiles[spec_map_idx(p.x as int, p.y as int)] == TileType::Exit
}

/// The phase that follows `current` in the world `w` on the grid `tiles`.
/// Where there is no player with health and a position, the turn passes on.
pub open spec fn spec_end_turn(w: WorldView, tiles: Seq<TileType>, current: TurnState) -> TurnState {
    match w.player() {
        Some(player) => {
            let c = w.get(player);
            if c.health.is_some() && c.position.is_some() {
                spec_next_state(
                    current,
                    c.health.unwrap().current,
                    first_amulet(w, w.entries.len() as int) == c.position,
                    is_exit(tiles, c.position.unwrap()),
                )
            } else if current == TurnState::AwaitingInput {
                current
            } else {
                spec_advance(current)
            }
        },
        None => if current == TurnState::AwaitingInput {
            current
        } else {
            spec_advance(current)
        },
    }
}

/// The position of the amulet, if it lies somewhere.
pub fn amulet_position(ecs: &World) -> (r: Option<Point>)
    ensures
        r == first_amulet(ecs@, ecs@.entries.len() as int),
{
    let mut i: usize = 0;
    while i < ecs.entries.len()
        invariant
            i <= ecs.entries.len(),
            first_amulet(ecs@, i as int).is_none(),
        decreases ecs.entries.len() - i,
    {
        let here = match &ecs.entries[i] {
            Some(c) => if c.amulet_of_yala {
                c.position
            } else {
                None
            },
            None => None,
        };
        if here.is_some() {
            proof {
                lemma_first_amulet_found(ecs@, i as int, ecs.entries.len() as int);
            }
            return here;
        }
        i = i + 1;
    }
    None
}

/// The first amulet with a position is the one that counts.
pub proof fn lemma_first_amulet_found(w: WorldView, i: int, n: int)
    requires
        0 <= i < n <= w.entries.len(),
        first_amulet(w, i).is_none(),
        first_amulet(w, i + 1).is_some(),
    ensures
        first_amulet(w, n) == first_amulet(w, i + 1),
    decreases n,
{
    if n > i + 1 {
        lemma_first_amulet_found(w, i, n - 1);
    }
}

/// Decides where the game goes at the end of a turn.
pub fn end_turn(ecs: &World, turn_state: &mut TurnState, map: &TileGrid)
    requires
        map.wf(),
    ensures
        *final(turn_state) == spec_end_turn(ecs@, map.tiles@, *old(turn_state)),
{
    let current_state = *turn_state;
    if current_state == TurnState::AwaitingInput {
        return ;
    }
    let mut new_state = next_state(current_state, 1, false, false);
    if let Some(player) = ecs.find_player() {
        if let Some(c) = ecs.entry(player) {
            if let (Some(hp), Some(pos)) = (c.health, c.position) {
                let on_amulet = match amulet_position(ecs) {
                    Some(amulet_pos) => amulet_pos == pos,
                    None => false,
                };
                let on_exit = match map.try_idx(pos) {
                    Some(idx) => map.tiles[idx] == TileType::Exit,
                    None => false,
                };
                new_state = next_state(current_state, hp.current, on_amulet, on_exit);
            }
        }
    }
    *turn_state = new_state;
}

} // verus!
