//! The systems: what happens to the world in one pass of one phase.

use vstd::prelude::*;

pub mod chasing;
pub mod combat;
pub mod end_turn;
pub mod fov;
pub mod movement;
pub mod player_input;
pub mod random_move;
pub mod use_items;

use crate::turn_state::TurnState;

verus! {

/// The systems by name.
#[derive(Clone, Copy, Debug, PartialEq, Eq, Structural)]
pub enum System {
    PlayerInput,
    RandomMove,
    Chasing,
    Movement,
    Combat,
    UseItems,
    Fov,
    EndTurn,
}

/// The systems that make up one pass, in the order in which they run.
/// What a system queues is applied before the next one runs.
pub struct Schedule {
    pub systems: Vec<System>,
}

/// The pass that waits for the player: the input.
pub open spec fn input_pass() -> Seq<System> {
    seq![System::PlayerInput]
}

/// The pass of the player's turn.
pub open spec fn player_pass() -> Seq<System> {
    seq![System::Movement, System::Combat, System::UseItems, System::Fov, System::EndTurn]
}

/// The pass of the monsters' turn.
pub open spec fn monster_pass() -> Seq<System> {
    seq![
        System::RandomMove,
        System::Chasing,
        System::Movement,
        System::Combat,
        System::Fov,
        System::EndTurn,
    ]
}

pub fn build_input_scheduler() -> (schedule: Schedule)
    ensures
        schedule.systems@ == input_pass(),
{
    let mut systems: Vec<System> = Vec::new();
    systems.push(System::PlayerInput);
    assert(systems@ =~= input_pass());
    Schedule { systems }
}

pub fn build_player_scheduler() -> (schedule: Schedule)
    ensures
        schedule.systems@ == player_pass(),
{
    let mut systems: Vec<System> = Vec::new();
    systems.push(System::Movement);
    systems.push(System::Combat);
    systems.push(System::UseItems);
    systems.push(System::Fov);
    systems.push(System::EndTurn);
    assert(systems@ =~= player_pass());
    Schedule { systems }
}

pub fn build_monster_scheduler() -> (schedule: Schedule)
    ensures
        schedule.systems@ == monster_pass(),
{
    let mut systems: Vec<System> = Vec::new();
    systems.push(System::RandomMove);
    systems.push(System::Chasing);
    systems.push(System::Movement);
    systems.push(System::Combat);
    systems.push(System::Fov);
    systems.push(System::EndTurn);
    assert(systems@ =~= monster_pass());
    Schedule { systems }
}

/// The pass that runs in the given phase. The phases in which the game
/// stands still or the level changes have none.
pub fn build_scheduler(turn_state: TurnState) -> (r: Option<Schedule>)
    ensures
        match turn_state {
            TurnState::AwaitingInput => r.is_some() && r.unwrap().systems@ == input_pass(),
            TurnState::PlayerTurn => r.is_some() && r.unwrap().systems@ == player_pass(),
            TurnState::MonsterTurn => r.is_some() && r.unwrap().systems@ == monster_pass(),
            _ => r.is_none(),
        },
{
    match turn_state {
        TurnState::AwaitingInput => Some(build_input_scheduler()),
        TurnState::PlayerTurn => Some(build_player_scheduler()),
        TurnState::MonsterTurn => Some(build_monster_scheduler()),
        _ => None,
    }
}

/// Whether a system neither files nor consumes intents.
pub open spec fn passive(system: System) -> bool {
    system == System::UseItems || system == System::Fov || system == System::EndTurn
}

/// Whether no intent to move is left after the first `n` systems:
/// movement has run, and nothing that files intents has run since.
pub open spec fn settles_moves(systems: Seq<System>, n: int) -> bool
    decreases n,
{
    n > 0 && (systems[n - 1] == System::Movement || ((passive(systems[n - 1]) || systems[n - 1]
        == System::Combat) && settles_moves(systems, n - 1)))
}

/// Whether no intent to attack is left after the first `n` systems:
/// combat has run, and nothing that files intents has run since.
pub open spec fn settles_attacks(systems: Seq<System>, n: int) -> bool
    decreases n,
{
    n > 0 && (systems[n - 1] == System::Combat || ((passive(systems[n - 1]) || systems[n - 1]
        == System::Movement) && settles_attacks(systems, n - 1)))
}

/// Whether none of the first `n` systems touches the phase.
pub open spec fn keeps_phase(systems: Seq<System>, n: int) -> bool
    decreases n,
{
    n <= 0 || (systems[n - 1] != System::PlayerInput && systems[n - 1] != System::EndTurn
        && keeps_phase(systems, n - 1))
}

/// Whether the pass ends the turn: its last system, and no other, decides where the game goes.
pub open spec fn winds_up(systems: Seq<System>) -> bool {
    systems.len() > 0 && systems[systems.len() - 1] == System::EndTurn && keeps_phase(
        systems,
        systems.len() - 1,
    )
}

/// The passes of the player's and of the monsters' turn leave no intent
/// to move or to attack behind, and end the turn.
pub proof fn lemma_passes_settle()
    ensures
        settles_moves(player_pass(), 5),
        settles_attacks(player_pass(), 5),
        winds_up(player_pass()),
        settles_moves(monster_pass(), 6),
        settles_attacks(monster_pass(), 6),
        winds_up(monster_pass()),
{
    let p = player_pass();
    assert(settles_moves(p, 1));
    assert(settles_moves(p, 2));
    assert(settles_moves(p, 3));
    assert(settles_moves(p, 4));
    assert(settles_attacks(p, 2));
    assert(settles_attacks(p, 3));
    assert(settles_attacks(p, 4));
    assert(keeps_phase(p, 0));
    assert(keeps_phase(p, 1));
    assert(keeps_phase(p, 2));
    assert(keeps_phase(p, 3));
    assert(keeps_phase(p, 4));
    let m = monster_pass();
    assert(settles_moves(m, 3));
    assert(settles_moves(m, 4));
    assert(settles_moves(m, 5));
    assert(settles_attacks(m, 4));
    assert(settles_attacks(m, 5));
    assert(keeps_phase(m, 0));
    assert(keeps_phase(m, 1));
    assert(keeps_phase(m, 2));
    assert(keeps_phase(m, 3));
    assert(keeps_phase(m, 4));
    assert(keeps_phase(m, 5));
}

/// What a system cannot work without.
#[derive(Clone, Copy, Debug, PartialEq, Eq, Structural)]
pub enum Defect {
    /// The world holds no player that stands on the grid.
    NoPlayer,
    /// A kind of enemy that was to be spawned has no health.
    EnemyWithoutHealth,
    /// The templates hold more entries for a level than a draw can number.
    TooManyEntries,
}

} // verus!
