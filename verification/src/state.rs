//! The game: the world, the level and the phase, and the tick that
//! carries them from one frame to the next.

use vstd::prelude::*;
use bracket_random::prelude::RandomNumberGenerator;
use crate::camera::Camera;
use crate::components::{Carried, ComponentsView, Entity, FieldOfViewView, Player};
use crate::distance::{lemma_reached_is_open, reach_within};
use crate::geometry::Point;
use crate::map::{enterable, spec_map_idx, TileGrid, TileType};
use crate::map_builder::themes::Theme;
use crate::map_builder::{generated, no_exit, GenerationError, MapBuilder, MAX_DEPTH};
use crate::spawner::template::{
    fully_stocked, lemma_stocked_well_placed, made_of, stocked, weight_upto, Template, Templates,
};
use crate::spawner::{
    amulet_components, player_components, spawn_amulet_of_yala, spawn_level, spawn_player,
};
use crate::distance::spec_distances;
use crate::systems::chasing::{chasing, player_position, spec_chasing_upto};
use crate::systems::combat::{combat, lemma_combat_frame, spec_combat_upto, Fought};
use crate::systems::end_turn::{end_turn, spec_end_turn};
use crate::systems::fov::{fov, spec_refresh, spec_seen_upto};
use crate::systems::movement::{
    lemma_movement_commits_enterable, movement_system, spec_movement_upto, Moved,
};
use crate::systems::player_input::{placed_player, player_input, spec_player_input, Action};
use crate::systems::random_move::{lemma_wander_only_intents, random_move, spec_wander};
use crate::systems::use_items::{lemma_use_items_frame, spec_use_items_upto, use_items, Used};
use crate::systems::{
    build_monster_scheduler, build_player_scheduler, keeps_phase, lemma_passes_settle,
    monster_pass, passive, player_pass, settles_attacks, settles_moves, winds_up, Defect, Schedule,
    System,
};
use crate::turn_state::TurnState;
use crate::systems::chasing::lemma_chasing_places_nothing;
use crate::systems::movement::lemma_movement_places_well;
use crate::systems::player_input::lemma_input_places_nothing;
use crate::systems::random_move::lemma_wander_places_nothing;
use crate::world::{
    lemma_apply_keeps_intents, lemma_apply_keeps_placed, lemma_first_player_is_player,
    lemma_intents_keep_rows, lemma_kept_places_are_well, lemma_nothing_placed_is_well,
    row_placed, well_placed, CommandBuffer, CommandView, World, WorldView,
};

verus! {

/// The level on which the amulet lies, the first level being 0.
pub const LAST_LEVEL: u32 = 2;

/// Why the game cannot go on.
#[derive(Clone, Copy, Debug, PartialEq, Eq, Structural)]
pub enum GameError {
    /// A level could not be generated.
    Generation(GenerationError),
    /// The world or the templates lack what the game needs.
    Defect(Defect),
}

pub struct State {
    pub ecs: World,
    pub map: TileGrid,
    pub camera: Camera,
    pub turn_state: TurnState,
    pub theme: Theme,
    pub rng: RandomNumberGenerator,
    pub templates: Templates,
    /// Where the pointer was on the grid when the last frame began.
    pub pointer: Point,
}

/// A row as it is carried over to the next level: the player, who enters
/// the level at `start` with one level more behind, and what lies in the
/// player's pack. Nothing else is carried over. A field of view that is
/// carried over is out of date.
pub open spec fn spec_survivor(
    row: Option<ComponentsView>,
    i: int,
    player: Entity,
    start: Point,
) -> Option<ComponentsView> {
    match row {
        Some(c) => {
            let field_of_view = match c.field_of_view {
                Some(fov) => Some(FieldOfViewView { is_dirty: true, ..fov }),
                None => None,
            };
            if i == player.0 {
                Some(
                    ComponentsView {
                        player: match c.player {
                            Some(p) => Some(Player { map_level: spec_next_level(p.map_level) }),
                            None => None,
                        },
                        position: Some(start),
                        field_of_view,
                        ..c
                    },
                )
            } else if c.carried == Some(Carried(player)) {
                Some(ComponentsView { field_of_view, ..c })
            } else {
                None
            }
        },
        None => None,
    }
}

/// Whether `after` holds what is carried over from `before` to the next
/// level: the player is who it was, and the rows of the old level hold the
/// player, who has entered the new level where it now stands, the pack,
/// and nothing else.
pub open spec fn carried_over(before: WorldView, after: WorldView) -> bool {
    &&& before.player().is_some()
    &&& after.player() == before.player()
    &&& before.entries.len() <= after.entries.len()
    &&& placed_player(after).is_some()
    &&& forall|i: int|
        0 <= i < before.entries.len() ==> #[trigger] after.entries[i] == spec_survivor(
            before.entries[i],
            i,
            before.player().unwrap(),
            placed_player(after).unwrap().1,
        )
}

/// Whether a row stands nowhere if it lies in the pack of `owner`.
pub open spec fn stowed(row: Option<ComponentsView>, owner: Entity) -> bool {
    match row {
        Some(c) => c.carried == Some(Carried(owner)) ==> c.position.is_none(),
        None => true,
    }
}

/// The number of levels that lie behind the player, if there is one.
pub open spec fn entered_level(w: WorldView) -> u32 {
    match w.player() {
        Some(player) => match w.get(player).player {
            Some(p) => p.map_level,
            None => 0,
        },
        None => 0,
    }
}

/// Whether nothing in the pack of `owner` stands anywhere on the level.
pub open spec fn pack_unplaced(w: WorldView, owner: Entity) -> bool {
    forall|i: int|
        0 <= i < w.entries.len() && i != owner.0 ==> stowed(#[trigger] w.entries[i], owner)
}

/// What is carried over stands well on the new level, where the pack
/// stood nowhere and the start of the new level can be entered.
pub proof fn lemma_survivors_well_placed(
    before: WorldView,
    after: WorldView,
    player: Entity,
    start: Point,
    tiles: Seq<TileType>,
)
    requires
        after.entries.len() == before.entries.len(),
        forall|j: int|
            0 <= j < before.entries.len() ==> #[trigger] after.entries[j] == spec_survivor(
                before.entries[j],
                j,
                player,
                start,
            ),
        pack_unplaced(before, player),
        enterable(tiles, start),
    ensures
        well_placed(after, tiles),
{
    assert forall|j: int| 0 <= j < after.entries.len() implies row_placed(
        #[trigger] after.entries[j],
        tiles,
    ) by {
        assert(after.entries[j] == spec_survivor(before.entries[j], j, player, start));
        if j != player.0 {
            assert(stowed(before.entries[j], player));
        }
    }
}

/// Whether the world is that of a game that has just begun: its first
/// entity is the player as it is spawned.
pub open spec fn begun(w: WorldView) -> bool {
    &&& w.player() == Some(Entity(0))
    &&& placed_player(w).is_some()
    &&& w.entries.len() > 0
    &&& w.entries[0] == Some(player_components(placed_player(w).unwrap().1))
}

/// The number of levels behind after one more.
pub open spec fn spec_next_level(level: u32) -> u32 {
    if level < u32::MAX {
        (level + 1) as u32
    } else {
        level
    }
}

/// The mathematical model of the game: what a tick reads and changes
/// besides the tiles of the level.
pub ghost struct GameView {
    pub world: WorldView,
    pub camera: Camera,
    pub revealed: Seq<bool>,
    pub turn_state: TurnState,
}

impl View for State {
    type V = GameView;

    open spec fn view(&self) -> GameView {
        GameView {
            world: self.ecs@,
            camera: self.camera,
            revealed: self.map.revealed_tiles@,
            turn_state: self.turn_state,
        }
    }
}

impl GameView {
    /// The game after the input system. A command of a player with a
    /// position is turned into intents and begins the player's turn;
    /// anything else changes nothing.
    pub open spec fn after_input(self, key: Option<Action>) -> GameView {
        match (key, placed_player(self.world)) {
            (Some(action), Some((player, pos))) => GameView {
                world: self.world.apply_all(spec_player_input(self.world, player, pos, action)),
                turn_state: TurnState::PlayerTurn,
                ..self
            },
            _ => self,
        }
    }

    /// The game after the wanderers have filed their intents for the given rolls.
    pub open spec fn after_wandering(self, rolls: Seq<int>) -> GameView {
        GameView { world: self.world.apply_all(spec_wander(self.world, rolls)), ..self }
    }

    /// The game after the chasers have filed their intents. Without a
    /// player on the grid nothing changes.
    pub open spec fn after_chasing(self, tiles: Seq<TileType>) -> GameView {
        match player_position(self.world) {
            Some(pos) => GameView {
                world: self.world.apply_all(
                    spec_chasing_upto(
                        self.world,
                        tiles,
                        spec_distances(
                            tiles,
                            seq![spec_map_idx(pos.x as int, pos.y as int) as usize],
                            MAX_DEPTH as nat,
                        ),
                        pos,
                        self.world.entries.len() as int,
                    ),
                ),
                ..self
            },
            None => self,
        }
    }

    /// The game after movement: the intents to move are carried out and
    /// gone, and what they queued is applied.
    pub open spec fn after_movement(self, tiles: Seq<TileType>) -> GameView {
        let moved = spec_movement_upto(
            self.world,
            tiles,
            Moved { commands: Seq::empty(), camera: self.camera, revealed: self.revealed },
            self.world.wants_to_move,
            self.world.wants_to_move.len() as int,
        );
        GameView {
            world: (WorldView { wants_to_move: Seq::empty(), ..self.world }).apply_all(
                moved.commands,
            ),
            camera: moved.camera,
            revealed: moved.revealed,
            ..self
        }
    }

    /// The game after combat: the attacks are carried out and gone, and
    /// what they queued is applied.
    pub open spec fn after_combat(self) -> GameView {
        let fought = spec_combat_upto(
            Fought { world: self.world, commands: Seq::empty() },
            self.world.wants_to_attack,
            self.world.wants_to_attack.len() as int,
        );
        GameView {
            world: (WorldView { wants_to_attack: Seq::empty(), ..fought.world }).apply_all(
                fought.commands,
            ),
            ..self
        }
    }

    /// The game after the use of items: the uses are carried out and gone,
    /// and what they queued is applied.
    pub open spec fn after_items(self) -> GameView {
        let used = spec_use_items_upto(
            Used { world: self.world, commands: Seq::empty(), revealed: self.revealed },
            self.world.activations,
            self.world.activations.len() as int,
        );
        GameView {
            world: (WorldView { activations: Seq::empty(), ..used.world }).apply_all(
                used.commands,
            ),
            revealed: used.revealed,
            ..self
        }
    }

    /// The game after the visibility refresh.
    pub open spec fn after_fov(self, tiles: Seq<TileType>) -> GameView {
        GameView {
            world: WorldView {
                entries: Seq::new(
                    self.world.entries.len(),
                    |i: int| spec_refresh(tiles, self.world.entries[i]),
                ),
                ..self.world
            },
            revealed: spec_seen_upto(
                self.world,
                tiles,
                self.revealed,
                self.world.entries.len() as int,
            ),
            ..self
        }
    }

    /// The game after the end of the turn.
    pub open spec fn after_end_turn(self, tiles: Seq<TileType>) -> GameView {
        GameView { turn_state: spec_end_turn(self.world, tiles, self.turn_state), ..self }
    }

    /// The game after one system has run and what it queued is applied.
    /// The rolls count for the wanderers only.
    #[verifier::opaque]
    pub open spec fn after(
        self,
        system: System,
        tiles: Seq<TileType>,
        key: Option<Action>,
        rolls: Seq<int>,
    ) -> GameView {
        match system {
            System::PlayerInput => self.after_input(key),
            System::RandomMove => self.after_wandering(rolls),
            System::Chasing => self.after_chasing(tiles),
            System::Movement => self.after_movement(tiles),
            System::Combat => self.after_combat(),
            System::UseItems => self.after_items(),
            System::Fov => self.after_fov(tiles),
            System::EndTurn => self.after_end_turn(tiles),
        }
    }

    /// The game after the first `n` systems of a pass, where the wanderers
    /// of step `i` roll `rolls[i]`.
    pub open spec fn after_pass(
        self,
        systems: Seq<System>,
        tiles: Seq<TileType>,
        key: Option<Action>,
        rolls: Seq<Seq<int>>,
        n: int,
    ) -> GameView
        decreases n,
    {
        if n <= 0 {
            self
        } else {
            self.after_pass(systems, tiles, key, rolls, n - 1).after(
                systems[n - 1],
                tiles,
                key,
                rolls[n - 1],
            )
        }
    }
}

/// Whether a system stops the pass in the given game: the input needs a
/// player with a position when a command is there, and the chasers need a
/// player on the grid.
pub open spec fn stops(system: System, g: GameView, key: Option<Action>) -> bool {
    (system == System::PlayerInput && key.is_some() && placed_player(g.world).is_none()) || (
    system == System::Chasing && player_position(g.world).is_none())
}

/// Whether the rolls are rolls of a four-sided die, one for each row of the world.
pub open spec fn fair_rolls(rolls: Seq<int>, w: WorldView) -> bool {
    rolls.len() == w.entries.len() && forall|k: int|
        0 <= k < rolls.len() ==> 0 <= #[trigger] rolls[k] < 4
}

/// The first `n` steps of a pass do not depend on the rolls behind them.
pub proof fn lemma_pass_same_rolls(
    g: GameView,
    systems: Seq<System>,
    tiles: Seq<TileType>,
    key: Option<Action>,
    a: Seq<Seq<int>>,
    b: Seq<Seq<int>>,
    n: int,
)
    requires
        n <= a.len() <= b.len(),
        forall|k: int| 0 <= k < n ==> a[k] == b[k],
    ensures
        g.after_pass(systems, tiles, key, a, n) == g.after_pass(systems, tiles, key, b, n),
    decreases n,
{
    if n > 0 {
        lemma_pass_same_rolls(g, systems, tiles, key, a, b, n - 1);
    }
}

/// A pass without wanderers does not depend on rolls at all.
pub proof fn lemma_pass_without_rolls(
    g: GameView,
    systems: Seq<System>,
    tiles: Seq<TileType>,
    key: Option<Action>,
    a: Seq<Seq<int>>,
    b: Seq<Seq<int>>,
    n: int,
)
    requires
        0 <= n <= systems.len(),
        forall|k: int| 0 <= k < n ==> systems[k] != System::RandomMove,
    ensures
        g.after_pass(systems, tiles, key, a, n) == g.after_pass(systems, tiles, key, b, n),
    decreases n,
{
    reveal(GameView::after);
    if n > 0 {
        lemma_pass_without_rolls(g, systems, tiles, key, a, b, n - 1);
    }
}

/// What a system leaves of the intents: movement leaves no intent to
/// move, combat none to attack and the use of items none to use; and no
/// system but the input and the monsters' files an intent that it finds
/// none of.
#[verifier::rlimit(40)]
pub proof fn lemma_intents_after(
    g: GameView,
    system: System,
    tiles: Seq<TileType>,
    key: Option<Action>,
    rolls: Seq<int>,
)
    ensures
        system == System::Movement ==> g.after(system, tiles, key, rolls).world.wants_to_move.len()
            == 0,
        system == System::Combat ==> g.after(system, tiles, key, rolls).world.wants_to_attack.len()
            == 0,
        system == System::UseItems ==> g.after(system, tiles, key, rolls).world.activations.len()
            == 0,
        passive(system) || system == System::Combat ==> g.after(
            system,
            tiles,
            key,
            rolls,
        ).world.wants_to_move == g.world.wants_to_move,
        passive(system) || system == System::Movement ==> g.after(
            system,
            tiles,
            key,
            rolls,
        ).world.wants_to_attack == g.world.wants_to_attack,
        system == System::Movement || system == System::Combat || system == System::Fov || system
            == System::EndTurn ==> g.after(system, tiles, key, rolls).world.activations
            == g.world.activations,
        system != System::PlayerInput && system != System::EndTurn ==> g.after(
            system,
            tiles,
            key,
            rolls,
        ).turn_state == g.turn_state,
{
    reveal(GameView::after);
    match system {
        System::Movement => {
            let start = Moved { commands: Seq::empty(), camera: g.camera, revealed: g.revealed };
            let n = g.world.wants_to_move.len() as int;
            lemma_movement_commits_enterable(g.world, tiles, start, g.world.wants_to_move, n);
            let moved = spec_movement_upto(g.world, tiles, start, g.world.wants_to_move, n);
            lemma_apply_keeps_intents(
                WorldView { wants_to_move: Seq::empty(), ..g.world },
                moved.commands,
                moved.commands.len() as int,
            );
        },
        System::Combat => {
            let start = Fought { world: g.world, commands: Seq::empty() };
            let n = g.world.wants_to_attack.len() as int;
            lemma_combat_frame(start, g.world.wants_to_attack, n);
            let fought = spec_combat_upto(start, g.world.wants_to_attack, n);
            lemma_apply_keeps_intents(
                WorldView { wants_to_attack: Seq::empty(), ..fought.world },
                fought.commands,
                fought.commands.len() as int,
            );
        },
        System::UseItems => {
            let start = Used { world: g.world, commands: Seq::empty(), revealed: g.revealed };
            let n = g.world.activations.len() as int;
            lemma_use_items_frame(start, g.world.activations, n);
            let used = spec_use_items_upto(start, g.world.activations, n);
            lemma_apply_keeps_intents(
                WorldView { activations: Seq::empty(), ..used.world },
                used.commands,
                used.commands.len() as int,
            );
        },
        _ => {},
    }
}

/// A pass in which movement and combat run behind whatever files intents
/// leaves no intent to move or to attack behind, and a pass that ends the
/// turn leaves the game in the phase that follows from the world as the
/// pass has left it.
pub proof fn lemma_pass_settles(
    g: GameView,
    systems: Seq<System>,
    tiles: Seq<TileType>,
    key: Option<Action>,
    rolls: Seq<Seq<int>>,
    n: int,
)
    requires
        0 <= n <= systems.len(),
    ensures
        settles_moves(systems, n) ==> g.after_pass(
            systems,
            tiles,
            key,
            rolls,
            n,
        ).world.wants_to_move.len() == 0,
        settles_attacks(systems, n) ==> g.after_pass(
            systems,
            tiles,
            key,
            rolls,
            n,
        ).world.wants_to_attack.len() == 0,
        keeps_phase(systems, n) ==> g.after_pass(systems, tiles, key, rolls, n).turn_state
            == g.turn_state,
        n == systems.len() && winds_up(systems) ==> g.after_pass(
            systems,
            tiles,
            key,
            rolls,
            n,
        ).turn_state == spec_end_turn(
            g.after_pass(systems, tiles, key, rolls, n).world,
            tiles,
            g.turn_state,
        ),
    decreases n,
{
    reveal(GameView::after);
    if n > 0 {
        lemma_pass_settles(g, systems, tiles, key, rolls, n - 1);
        lemma_intents_after(
            g.after_pass(systems, tiles, key, rolls, n - 1),
            systems[n - 1],
            tiles,
            key,
            rolls[n - 1],
        );
    }
}

/// No system puts an entity on a tile that cannot be entered: where
/// everything stands well before a system runs, it does so afterwards.
#[verifier::rlimit(40)]
pub proof fn lemma_after_keeps_placed(
    g: GameView,
    system: System,
    tiles: Seq<TileType>,
    key: Option<Action>,
    rolls: Seq<int>,
)
    requires
        well_placed(g.world, tiles),
    ensures
        well_placed(g.after(system, tiles, key, rolls).world, tiles),
{
    reveal(GameView::after);
    let w = g.world;
    match system {
        System::PlayerInput => {
            match (key, placed_player(w)) {
                (Some(action), Some((player, pos))) => {
                    let filed = spec_player_input(w, player, pos, action);
                    lemma_input_places_nothing(w, player, pos, action);
                    lemma_nothing_placed_is_well(filed, tiles, 0);
                    lemma_apply_keeps_placed(w, filed, tiles, filed.len() as int);
                },
                _ => {},
            }
        },
        System::RandomMove => {
            let filed = spec_wander(w, rolls);
            lemma_wander_places_nothing(w, rolls, w.entries.len() as int);
            lemma_nothing_placed_is_well(filed, tiles, 0);
            lemma_apply_keeps_placed(w, filed, tiles, filed.len() as int);
        },
        System::Chasing => {
            match player_position(w) {
                Some(pos) => {
                    let dist = spec_distances(
                        tiles,
                        seq![spec_map_idx(pos.x as int, pos.y as int) as usize],
                        MAX_DEPTH as nat,
                    );
                    let filed = spec_chasing_upto(w, tiles, dist, pos, w.entries.len() as int);
                    lemma_chasing_places_nothing(w, tiles, dist, pos, w.entries.len() as int);
                    lemma_nothing_placed_is_well(filed, tiles, 0);
                    lemma_apply_keeps_placed(w, filed, tiles, filed.len() as int);
                },
                None => {},
            }
        },
        System::Movement => {
            let start = Moved { commands: Seq::empty(), camera: g.camera, revealed: g.revealed };
            let n = w.wants_to_move.len() as int;
            let moved = spec_movement_upto(w, tiles, start, w.wants_to_move, n);
            lemma_movement_places_well(w, tiles, start, w.wants_to_move, n);
            let emptied = WorldView { wants_to_move: Seq::empty(), ..w };
            assert(well_placed(emptied, tiles));
            lemma_apply_keeps_placed(emptied, moved.commands, tiles, moved.commands.len() as int);
        },
        System::Combat => {
            let start = Fought { world: w, commands: Seq::empty() };
            let n = w.wants_to_attack.len() as int;
            let fought = spec_combat_upto(start, w.wants_to_attack, n);
            lemma_combat_frame(start, w.wants_to_attack, n);
            lemma_kept_places_are_well(w, fought.world, tiles);
            let emptied = WorldView { wants_to_attack: Seq::empty(), ..fought.world };
            assert(well_placed(emptied, tiles));
            lemma_nothing_placed_is_well(fought.commands, tiles, 0);
            lemma_apply_keeps_placed(emptied, fought.commands, tiles, fought.commands.len() as int);
        },
        System::UseItems => {
            let start = Used { world: w, commands: Seq::empty(), revealed: g.revealed };
            let n = w.activations.len() as int;
            let used = spec_use_items_upto(start, w.activations, n);
            lemma_use_items_frame(start, w.activations, n);
            lemma_kept_places_are_well(w, used.world, tiles);
            let emptied = WorldView { activations: Seq::empty(), ..used.world };
            assert(well_placed(emptied, tiles));
            lemma_nothing_placed_is_well(used.commands, tiles, 0);
            lemma_apply_keeps_placed(emptied, used.commands, tiles, used.commands.len() as int);
        },
        System::Fov => {
            let after = g.after_fov(tiles).world;
            assert forall|i: int| 0 <= i < after.entries.len() implies row_placed(
                #[trigger] after.entries[i],
                tiles,
            ) by {
                assert(row_placed(w.entries[i], tiles));
            }
        },
        System::EndTurn => {},
    }
}

/// No pass puts an entity on a tile that cannot be entered: where
/// everything stands well before the pass, it does so after every step.
pub proof fn lemma_pass_keeps_placed(
    g: GameView,
    systems: Seq<System>,
    tiles: Seq<TileType>,
    key: Option<Action>,
    rolls: Seq<Seq<int>>,
    n: int,
)
    requires
        0 <= n <= systems.len(),
        well_placed(g.world, tiles),
    ensures
        well_placed(g.after_pass(systems, tiles, key, rolls, n).world, tiles),
    decreases n,
{
    if n > 0 {
        lemma_pass_keeps_placed(g, systems, tiles, key, rolls, n - 1);
        lemma_after_keeps_placed(
            g.after_pass(systems, tiles, key, rolls, n - 1),
            systems[n - 1],
            tiles,
            key,
            rolls[n - 1],
        );
    }
}

/// The pass of the player's turn leaves no intent to use an item behind.
pub proof fn lemma_items_settle(g: GameView, tiles: Seq<TileType>, key: Option<Action>)
    ensures
        g.after_pass(player_pass(), tiles, key, Seq::empty(), 5).world.activations.len() == 0,
{
    let p = player_pass();
    let r = Seq::<Seq<int>>::empty();
    let g0 = g.after_pass(p, tiles, key, r, 0);
    let g1 = g.after_pass(p, tiles, key, r, 1);
    let g2 = g.after_pass(p, tiles, key, r, 2);
    let g3 = g.after_pass(p, tiles, key, r, 3);
    let g4 = g.after_pass(p, tiles, key, r, 4);
    assert(g1 == g0.after(p[0], tiles, key, r[0]));
    assert(g2 == g1.after(p[1], tiles, key, r[1]));
    assert(g3 == g2.after(p[2], tiles, key, r[2]));
    assert(g4 == g3.after(p[3], tiles, key, r[3]));
    lemma_intents_after(g2, System::UseItems, tiles, key, r[2]);
    lemma_intents_after(g3, System::Fov, tiles, key, r[3]);
    lemma_intents_after(g4, System::EndTurn, tiles, key, r[4]);
}

/// The number of systems of the first `n` of a pass that run: all of them
/// where none stops the pass, and those before the first that stops it else.
pub open spec fn spec_halt(
    g: GameView,
    systems: Seq<System>,
    tiles: Seq<TileType>,
    key: Option<Action>,
    rolls: Seq<Seq<int>>,
    n: int,
) -> int
    decreases n,
{
    if n <= 0 {
        0
    } else {
        let ran = spec_halt(g, systems, tiles, key, rolls, n - 1);
        if ran < n - 1 {
            ran
        } else if stops(systems[n - 1], g.after_pass(systems, tiles, key, rolls, n - 1), key) {
            n - 1
        } else {
            n
        }
    }
}

/// Whether `after` is what a pass makes of `before` for the given rolls,
/// one list of them for each system that was tried: the systems run in
/// order up to the first that stops the pass, which changes nothing; the
/// wanderers of each step roll fair dice; and `ok` says whether all
/// systems ran.
pub open spec fn ran(
    before: GameView,
    after: GameView,
    systems: Seq<System>,
    tiles: Seq<TileType>,
    key: Option<Action>,
    rolls: Seq<Seq<int>>,
    ok: bool,
) -> bool {
    let done = spec_halt(before, systems, tiles, key, rolls, systems.len() as int);
    &&& done <= rolls.len() <= systems.len()
    &&& after == before.after_pass(systems, tiles, key, rolls, done)
    &&& ok == (done == systems.len())
    &&& forall|k: int|
        0 <= k < done && #[trigger] systems[k] == System::RandomMove ==> fair_rolls(
            rolls[k],
            before.after_pass(systems, tiles, key, rolls, k).world,
        )
}

/// A system that stops the pass changes nothing.
pub proof fn lemma_stopped_changes_nothing(
    g: GameView,
    system: System,
    tiles: Seq<TileType>,
    key: Option<Action>,
    rolls: Seq<int>,
)
    requires
        stops(system, g, key),
    ensures
        g.after(system, tiles, key, rolls) == g,
{
    reveal(GameView::after);
}

/// How many of the first `n` systems run does not depend on the rolls behind them.
pub proof fn lemma_halt_same_rolls(
    g: GameView,
    systems: Seq<System>,
    tiles: Seq<TileType>,
    key: Option<Action>,
    a: Seq<Seq<int>>,
    b: Seq<Seq<int>>,
    n: int,
)
    requires
        n <= a.len() <= b.len(),
        forall|k: int| 0 <= k < n ==> a[k] == b[k],
    ensures
        spec_halt(g, systems, tiles, key, a, n) == spec_halt(g, systems, tiles, key, b, n),
    decreases n,
{
    if n > 0 {
        lemma_halt_same_rolls(g, systems, tiles, key, a, b, n - 1);
        lemma_pass_same_rolls(g, systems, tiles, key, a, b, n - 1);
    }
}

/// A pass that has stopped stays stopped: no system behind the one that stopped it runs.
pub proof fn lemma_halt_stays(
    g: GameView,
    systems: Seq<System>,
    tiles: Seq<TileType>,
    key: Option<Action>,
    rolls: Seq<Seq<int>>,
    m: int,
    n: int,
)
    requires
        0 <= m <= n,
        spec_halt(g, systems, tiles, key, rolls, m) < m,
    ensures
        spec_halt(g, systems, tiles, key, rolls, n) == spec_halt(g, systems, tiles, key, rolls, m),
    decreases n,
{
    if m < n {
        lemma_halt_stays(g, systems, tiles, key, rolls, m, n - 1);
    }
}

/// The wanderers leave the player where it is: they file intents and do nothing else.
pub proof fn lemma_wandering_keeps_player(g: GameView, rolls: Seq<int>)
    ensures
        g.after_wandering(rolls).world.entries == g.world.entries,
        player_position(g.after_wandering(rolls).world) == player_position(g.world),
{
    let filed = spec_wander(g.world, rolls);
    lemma_wander_only_intents(g.world, rolls, g.world.entries.len() as int);
    lemma_intents_keep_rows(g.world, filed, filed.len() as int);
    lemma_same_rows_same_player(
        g.world,
        g.after_wandering(rolls).world,
        g.world.entries.len() as int,
    );
}

/// Whether `after` is what the monsters' turn makes of `before` for the
/// given rolls: the whole pass where a player stands on the grid, and
/// the wanderers' intents and nothing else where none does.
pub open spec fn monsters_ran(
    before: GameView,
    after: GameView,
    tiles: Seq<TileType>,
    key: Option<Action>,
    rolls: Seq<Seq<int>>,
) -> bool {
    &&& 1 <= rolls.len()
    &&& fair_rolls(rolls[0], before.world)
    &&& after == before.after_pass(
        monster_pass(),
        tiles,
        key,
        rolls,
        if player_position(before.world).is_some() {
            6int
        } else {
            1int
        },
    )
}

/// In the monsters' turn only the chasers can stop the pass, and they do
/// where no player stands on the grid.
pub proof fn lemma_monsters_ran(
    before: GameView,
    after: GameView,
    tiles: Seq<TileType>,
    key: Option<Action>,
    rolls: Seq<Seq<int>>,
    ok: bool,
)
    requires
        ran(before, after, monster_pass(), tiles, key, rolls, ok),
    ensures
        ok == player_position(before.world).is_some(),
        monsters_ran(before, after, tiles, key, rolls),
{
    let p = monster_pass();
    let g0 = before.after_pass(p, tiles, key, rolls, 0);
    let g1 = before.after_pass(p, tiles, key, rolls, 1);
    assert(g0 == before);
    assert(g1 == g0.after(p[0], tiles, key, rolls[0]));
    assert(g1 == before.after_wandering(rolls[0])) by {
        reveal(GameView::after);
    }
    lemma_wandering_keeps_player(before, rolls[0]);
    assert(spec_halt(before, p, tiles, key, rolls, 0) == 0);
    assert(spec_halt(before, p, tiles, key, rolls, 1) == 1);
    let h2 = spec_halt(before, p, tiles, key, rolls, 2);
    assert(h2 == (if player_position(before.world).is_none() {
        1int
    } else {
        2int
    }));
    if h2 < 2 {
        lemma_halt_stays(before, p, tiles, key, rolls, 2, 6);
    } else {
        assert(spec_halt(before, p, tiles, key, rolls, 3) == 3);
        assert(spec_halt(before, p, tiles, key, rolls, 4) == 4);
        assert(spec_halt(before, p, tiles, key, rolls, 5) == 5);
        assert(spec_halt(before, p, tiles, key, rolls, 6) == 6);
    }
    assert(p[0] == System::RandomMove);
}

/// A pass that no system can stop runs to its end.
pub proof fn lemma_unstoppable_runs(
    g: GameView,
    systems: Seq<System>,
    tiles: Seq<TileType>,
    key: Option<Action>,
    rolls: Seq<Seq<int>>,
    n: int,
)
    requires
        0 <= n <= systems.len(),
        never_stops(systems),
    ensures
        spec_halt(g, systems, tiles, key, rolls, n) == n,
    decreases n,
{
    if n > 0 {
        lemma_unstoppable_runs(g, systems, tiles, key, rolls, n - 1);
        assert(systems[n - 1] != System::PlayerInput && systems[n - 1] != System::Chasing);
    }
}

/// What the pass of the player's turn leaves: the game that its five
/// systems make one after the other, without an intent of any kind, in the
/// phase that follows from the world as it is left, and with everything
/// standing well that did.
pub proof fn lemma_player_pass(
    before: GameView,
    after: GameView,
    tiles: Seq<TileType>,
    key: Option<Action>,
    rolls: Seq<Seq<int>>,
    ok: bool,
)
    requires
        ran(before, after, player_pass(), tiles, key, rolls, ok),
    ensures
        ok,
        after == before.after_pass(player_pass(), tiles, key, Seq::empty(), 5),
        after.world.wants_to_move.len() == 0,
        after.world.wants_to_attack.len() == 0,
        after.world.activations.len() == 0,
        after.turn_state == spec_end_turn(after.world, tiles, before.turn_state),
        well_placed(before.world, tiles) ==> well_placed(after.world, tiles),
{
    let pass = player_pass();
    lemma_passes_settle();
    assert(never_stops(pass));
    lemma_unstoppable_runs(before, pass, tiles, key, rolls, 5);
    lemma_pass_without_rolls(before, pass, tiles, key, rolls, Seq::empty(), 5);
    lemma_pass_settles(before, pass, tiles, key, Seq::empty(), 5);
    lemma_items_settle(before, tiles, key);
    if well_placed(before.world, tiles) {
        lemma_pass_keeps_placed(before, pass, tiles, key, Seq::empty(), 5);
    }
}

/// What the pass of the monsters' turn leaves where it runs to its end:
/// no intent to move or to attack, and the phase that follows from the
/// world as it is left; and in any case everything standing well that did.
pub proof fn lemma_monster_pass(
    before: GameView,
    after: GameView,
    tiles: Seq<TileType>,
    key: Option<Action>,
    rolls: Seq<Seq<int>>,
    ok: bool,
)
    requires
        ran(before, after, monster_pass(), tiles, key, rolls, ok),
    ensures
        ok == player_position(before.world).is_some(),
        monsters_ran(before, after, tiles, key, rolls),
        !ok ==> after.world.entries == before.world.entries && after.turn_state
            == before.turn_state,
        ok ==> after.world.wants_to_move.len() == 0 && after.world.wants_to_attack.len() == 0
            && after.turn_state == spec_end_turn(after.world, tiles, before.turn_state),
        well_placed(before.world, tiles) ==> well_placed(after.world, tiles),
{
    let pass = monster_pass();
    lemma_passes_settle();
    lemma_monsters_ran(before, after, tiles, key, rolls, ok);
    if ok {
        lemma_pass_settles(before, pass, tiles, key, rolls, 6);
        if well_placed(before.world, tiles) {
            lemma_pass_keeps_placed(before, pass, tiles, key, rolls, 6);
        }
    } else {
        assert(before.after_pass(pass, tiles, key, rolls, 0) == before);
        assert(after == before.after_wandering(rolls[0])) by {
            reveal(GameView::after);
        }
        lemma_wandering_keeps_player(before, rolls[0]);
        if well_placed(before.world, tiles) {
            lemma_pass_keeps_placed(before, pass, tiles, key, rolls, 1);
        }
    }
}

/// Whether no system of the pass can stop it.
pub open spec fn never_stops(systems: Seq<System>) -> bool {
    forall|k: int|
        0 <= k < systems.len() ==> #[trigger] systems[k] != System::PlayerInput && systems[k]
            != System::Chasing
}

impl State {
    /// The tables have their sizes, and a draw can be made from the
    /// templates for every level.
    pub open spec fn wf(&self) -> bool {
        self.ecs.wf() && self.map.wf() && self.templates.light()
    }

    /// What holds of a level that was just entered: input is awaited, no
    /// intent waits, and the player stands on a tile that can be entered.
    pub open spec fn fresh(&self) -> bool {
        &&& self.wf()
        &&& self.turn_state == TurnState::AwaitingInput
        &&& self.ecs@.wants_to_move.len() == 0
        &&& self.ecs@.wants_to_attack.len() == 0
        &&& self.ecs@.activations.len() == 0
        &&& placed_player(self.ecs@).is_some()
        &&& enterable(self.map.tiles@, placed_player(self.ecs@).unwrap().1)
    }

    /// Whether the game has just begun on the generated level `mb`: input
    /// is awaited, the window is centred on the start of `mb`, the theme
    /// is that of `mb`, the tiles are those of `mb` with the way down in
    /// place, and the world holds the player at the start and behind it the
    /// stock of the first level at the spawn points of `mb`.
    pub open spec fn begun_on(&self, mb: &MapBuilder) -> bool {
        &&& self.turn_state == TurnState::AwaitingInput
        &&& self.camera == Camera::centered(mb.player_start)
        &&& self.theme == mb.theme
        &&& self.map.tiles@ == goal_tiles(mb, 0)
        &&& self.map.revealed_tiles@ == mb.map.revealed_tiles@
        &&& fully_stocked(
            alone(mb.player_start),
            self.ecs@,
            self.templates.entities@,
            0,
            mb.monster_spawns@,
        )
    }

    /// Whether the player of the world `before` has entered the generated
    /// level `mb`: input is awaited, the window is centred on the start of
    /// `mb`, the theme is that of `mb`, the tiles are those of `mb` with
    /// its goal in place, nothing is seen but what `mb` has seen, and the
    /// world holds what is carried over, behind it the amulet on the last
    /// level, and behind that the stock of the level at the spawn points
    /// of `mb`, all of it where `whole`.
    pub open spec fn entered(
        &self,
        before: WorldView,
        player: Entity,
        mb: &MapBuilder,
        whole: bool,
    ) -> bool {
        let level = level_after(before, player);
        let carried = with_goal(swept(before, player, mb.player_start), mb.amulet_start, level);
        &&& self.turn_state == TurnState::AwaitingInput
        &&& self.camera == Camera::centered(mb.player_start)
        &&& self.theme == mb.theme
        &&& self.map.tiles@ == goal_tiles(mb, level)
        &&& self.map.revealed_tiles@ == mb.map.revealed_tiles@
        &&& stocked(
            carried,
            self.ecs@,
            self.templates.entities@,
            level as usize,
            mb.monster_spawns@,
        )
        &&& whole ==> fully_stocked(
            carried,
            self.ecs@,
            self.templates.entities@,
            level as usize,
            mb.monster_spawns@,
        )
    }

    /// What holds of the game once the player of the world `before` has
    /// entered a level: input is awaited and no intent is left; the player
    /// and the pack are carried over, the player to a tile that can be
    /// entered; the goal of the level lies within reach of the player, and
    /// nothing else of its kind is there; and every field of view is out of
    /// date.
    pub open spec fn arrived(&self, before: WorldView) -> bool {
        &&& self.fresh()
        &&& carried_over(before, self.ecs@)
        &&& self.has_goal(
            if entered_level(self.ecs@) == LAST_LEVEL {
                Some(before.entries.len() as int)
            } else {
                None
            },
        )
        &&& all_dirty(self.ecs@)
        &&& goal_in_place(self.map.tiles@, before, self.ecs@, entered_level(self.ecs@))
    }

    /// Whether every entity that stands somewhere stands on a tile of the
    /// level that can be entered.
    pub open spec fn well_placed(&self) -> bool {
        well_placed(self.ecs@, self.map.tiles@)
    }

    /// Whether the tile at `goal` is a way down within reach of the player.
    pub open spec fn leads_down(&self, goal: Point) -> bool {
        TileGrid::spec_in_bounds(goal) && self.map.tile_at(goal) == TileType::Exit && self.in_reach(
            goal,
        )
    }

    /// Whether the level has its goal within reach of the player: the
    /// amulet, as it is spawned, if `last` is its row, and a way down else.
    pub open spec fn has_goal(&self, last: Option<int>) -> bool {
        match last {
            Some(row) => 0 <= row < self.ecs@.entries.len() && exists|goal: Point|
                self.ecs@.entries[row] == Some(#[trigger] amulet_components(goal))
                    && TileGrid::spec_in_bounds(goal) && self.in_reach(goal),
            None => exists|goal: Point| #[trigger] self.leads_down(goal),
        }
    }

    /// Whether the tile `goal` lies within reach of the player.
    pub open spec fn in_reach(&self, goal: Point) -> bool {
        let start = placed_player(self.ecs@).unwrap().1;
        reach_within(
            self.map.tiles@,
            seq![spec_map_idx(start.x as int, start.y as int) as usize],
            spec_map_idx(goal.x as int, goal.y as int),
            MAX_DEPTH as nat,
        )
    }

    /// A game on its first level, which the draws of `rng` shape and the
    /// kinds in `templates` stock. The level has a way down within reach
    /// of the player. Fails where the templates weigh too much, the level
    /// cannot be generated, or a kind that is drawn cannot be made.
    pub fn new(rng: RandomNumberGenerator, templates: Templates) -> (r: Result<State, GameError>)
        ensures
            match r {
                Ok(state) => {
                    &&& exists|mb: MapBuilder| generated(Ok(mb)) && #[trigger] state.begun_on(&mb)
                    &&& state.templates == templates
                    &&& state.pointer == (Point { x: 0, y: 0 })
                    &&& state.fresh()
                    &&& state.well_placed()
                    &&& begun(state.ecs@)
                    &&& state.has_goal(None)
                },
                Err(GameError::Defect(e)) => e == Defect::TooManyEntries || (e
                    == Defect::EnemyWithoutHealth && !templates.makeable(0)),
                Err(GameError::Generation(e)) => generated(Err(e)),
            },
            r == Err::<State, GameError>(GameError::Defect(Defect::TooManyEntries)) <==> weight_upto(
                templates.entities@,
                templates.entities.len() as int,
            ) >= i32::MAX,
    {
        if !templates.fits() {
            return Err(GameError::Defect(Defect::TooManyEntries));
        }
        let mut rng = rng;
        let (ecs, map_builder) = match first_level(&mut rng, &templates) {
            Ok(level) => level,
            Err(e) => {
                return Err(e);
            },
        };
        let ghost base = choose|mb: MapBuilder|
            generated(Ok(mb)) && #[trigger] started(&mb, ecs@, &map_builder, templates.entities@);
        let camera = Camera::new(map_builder.player_start);
        let ghost goal = map_builder.amulet_start;
        let state = State {
            ecs,
            map: map_builder.map,
            camera,
            turn_state: TurnState::AwaitingInput,
            theme: map_builder.theme,
            rng,
            templates,
            pointer: Point::zero(),
        };
        assert(state.leads_down(goal));
        assert(state.begun_on(&base));
        Ok(state)
    }

    /// Runs one system and applies what it has queued. A system that
    /// cannot work leaves the game as it is and reports the defect.
    #[verifier::rlimit(40)]
    pub fn run_system(&mut self, system: System, key: &Option<Action>) -> (r: Result<(), Defect>)
        requires
            old(self).wf(),
        ensures
            final(self).wf(),
            final(self).map.tiles == old(self).map.tiles,
            final(self).templates == old(self).templates,
            final(self).theme == old(self).theme,
            final(self).pointer == old(self).pointer,
            r.is_err() == stops(system, old(self)@, *key),
            r matches Err(e) ==> e == Defect::NoPlayer,
            system != System::RandomMove ==> final(self)@ == old(self)@.after(
                system,
                old(self).map.tiles@,
                *key,
                Seq::empty(),
            ),
            system == System::RandomMove ==> exists|rolls: Seq<int>|
                fair_rolls(rolls, old(self).ecs@) && final(self)@ == #[trigger] old(self)@.after(
                    system,
                    old(self).map.tiles@,
                    *key,
                    rolls,
                ),
    {
        proof {
            reveal(GameView::after);
        }
        let mut commands = CommandBuffer::new();
        let ghost before = self@;
        let ghost tiles = self.map.tiles@;
        assert(commands@ =~= Seq::empty());
        assert(Seq::<CommandView>::empty() + commands@ =~= commands@);
        let r = match system {
            System::PlayerInput => {
                let r = player_input(&self.ecs, &mut commands, key, &mut self.turn_state);
                proof {
                    match (*key, placed_player(before.world)) {
                        (Some(action), Some((player, pos))) => {
                            assert(commands@ =~= spec_player_input(
                                before.world,
                                player,
                                pos,
                                action,
                            ));
                        },
                        _ => {
                            assert(before.world.apply_all(commands@) == before.world);
                        },
                    }
                }
                r
            },
            System::RandomMove => {
                random_move(&self.ecs, &mut commands, &mut self.rng);
                proof {
                    let rolls = choose|rolls: Seq<int>|
                        rolls.len() == before.world.entries.len() && (forall|k: int|
                            0 <= k < rolls.len() ==> 0 <= #[trigger] rolls[k] < 4) && commands@
                            == Seq::<CommandView>::empty() + #[trigger] spec_wander(
                            before.world,
                            rolls,
                        );
                    assert(commands@ =~= spec_wander(before.world, rolls));
                    assert(fair_rolls(rolls, before.world));
                    assert(before.world.apply_all(commands@) == before.after(
                        system,
                        tiles,
                        *key,
                        rolls,
                    ).world);
                }
                Ok(())
            },
            System::Chasing => {
                let r = chasing(&self.map, &self.ecs, &mut commands);
                proof {
                    match player_position(before.world) {
                        Some(pos) => {
                            assert(commands@ =~= spec_chasing_upto(
                                before.world,
                                tiles,
                                spec_distances(
                                    tiles,
                                    seq![spec_map_idx(pos.x as int, pos.y as int) as usize],
                                    MAX_DEPTH as nat,
                                ),
                                pos,
                                before.world.entries.len() as int,
                            ));
                        },
                        None => {
                            assert(before.world.apply_all(commands@) == before.world);
                        },
                    }
                }
                r
            },
            System::Movement => {
                movement_system(&mut self.ecs, &mut self.map, &mut self.camera, &mut commands);
                Ok(())
            },
            System::Combat => {
                combat(&mut self.ecs, &mut commands);
                Ok(())
            },
            System::UseItems => {
                use_items(&mut self.ecs, &mut commands, &mut self.map);
                Ok(())
            },
            System::Fov => {
                fov(&mut self.ecs, &mut self.map);
                proof {
                    assert(self.ecs@.apply_all(commands@) == self.ecs@);
                }
                Ok(())
            },
            System::EndTurn => {
                end_turn(&self.ecs, &mut self.turn_state, &self.map);
                proof {
                    assert(self.ecs@.apply_all(commands@) == self.ecs@);
                }
                Ok(())
            },
        };
        commands.flush(&mut self.ecs);
        r
    }

    /// Runs the systems of a pass in their order, up to the first that
    /// reports a defect. The game is what the systems that ran make of it
    /// one after the other, for some rolls of the wanderers; the system
    /// that stops the pass changes nothing.
    #[verifier::rlimit(40)]
    pub fn execute(&mut self, schedule: &Schedule, key: &Option<Action>) -> (r: Result<(), Defect>)
        requires
            old(self).wf(),
        ensures
            final(self).wf(),
            final(self).map.tiles == old(self).map.tiles,
            final(self).templates == old(self).templates,
            final(self).theme == old(self).theme,
            final(self).pointer == old(self).pointer,
            r matches Err(e) ==> e == Defect::NoPlayer,
            never_stops(schedule.systems@) ==> r.is_ok(),
            exists|rolls: Seq<Seq<int>>|
                #[trigger] ran(
                    old(self)@,
                    final(self)@,
                    schedule.systems@,
                    old(self).map.tiles@,
                    *key,
                    rolls,
                    r.is_ok(),
                ),
    {
        let ghost mut rolls: Seq<Seq<int>> = Seq::empty();
        let ghost tiles = self.map.tiles@;
        let ghost systems = schedule.systems@;
        let ghost first = self@;
        let mut i: usize = 0;
        while i < schedule.systems.len()
            invariant
                self.wf(),
                i <= schedule.systems.len(),
                systems == schedule.systems@,
                first == old(self)@,
                self.map.tiles == old(self).map.tiles,
                tiles == old(self).map.tiles@,
                self.templates == old(self).templates,
                self.theme == old(self).theme,
                self.pointer == old(self).pointer,
                rolls.len() == i,
                self@ == first.after_pass(systems, tiles, *key, rolls, i as int),
                spec_halt(first, systems, tiles, *key, rolls, i as int) == i,
                forall|k: int|
                    0 <= k < i && #[trigger] systems[k] == System::RandomMove ==> fair_rolls(
                        rolls[k],
                        first.after_pass(systems, tiles, *key, rolls, k).world,
                    ),
            decreases schedule.systems.len() - i,
        {
            let system = schedule.systems[i];
            let ghost before = self@;
            let outcome = self.run_system(system, key);
            proof {
                let rolled = if system == System::RandomMove {
                    choose|rolled: Seq<int>|
                        fair_rolls(rolled, before.world) && self@ == #[trigger] before.after(
                            system,
                            tiles,
                            *key,
                            rolled,
                        )
                } else {
                    Seq::empty()
                };
                let longer = rolls.push(rolled);
                lemma_pass_same_rolls(first, systems, tiles, *key, rolls, longer, i as int);
                lemma_halt_same_rolls(first, systems, tiles, *key, rolls, longer, i as int);
                assert forall|k: int|
                    0 <= k <= i && #[trigger] systems[k] == System::RandomMove implies fair_rolls(
                    longer[k],
                    first.after_pass(systems, tiles, *key, longer, k).world,
                ) by {
                    lemma_pass_same_rolls(first, systems, tiles, *key, rolls, longer, k);
                    if k < i {
                        assert(longer[k] == rolls[k]);
                    }
                }
                if outcome.is_err() {
                    assert(stops(system, before, *key));
                    lemma_stopped_changes_nothing(before, system, tiles, *key, rolled);
                    assert(self@ == before);
                    assert(spec_halt(first, systems, tiles, *key, longer, i as int + 1) == i);
                    lemma_halt_stays(
                        first,
                        systems,
                        tiles,
                        *key,
                        longer,
                        i as int + 1,
                        systems.len() as int,
                    );
                    assert(ran(first, self@, systems, tiles, *key, longer, false));
                }
                rolls = longer;
            }
            match outcome {
                Ok(_) => {},
                Err(e) => {
                    return Err(e);
                },
            }
            i = i + 1;
        }
        assert(ran(first, self@, systems, tiles, *key, rolls, true));
        Ok(())
    }

    /// Leaves the level: a new level is generated and the player enters
    /// it. Fails, with nothing changed, where there is no player or the
    /// level cannot be generated; and, with the level left, where a kind
    /// that is drawn for the stock cannot be made.
    #[verifier::rlimit(40)]
    pub fn advance_level(&mut self) -> (r: Result<(), GameError>)
        requires
            old(self).wf(),
        ensures
            final(self).wf(),
            final(self).pointer == old(self).pointer,
            final(self).templates == old(self).templates,
            old(self).ecs@.player().is_none() <==> r == Err::<(), GameError>(
                GameError::Defect(Defect::NoPlayer),
            ),
            advanced(old(self), final(self), r),
            level_left(r) && old(self).ecs@.player().is_some() ==> {
                &&& final(self).arrived(old(self).ecs@)
                &&& pack_unplaced(old(self).ecs@, old(self).ecs@.player().unwrap())
                    ==> final(self).well_placed()
            },
    {
        let player_entity = match self.ecs.find_player() {
            Some(player) => player,
            None => {
                return Err(GameError::Defect(Defect::NoPlayer));
            },
        };
        let map_builder = match MapBuilder::new(&mut self.rng) {
            Ok(mb) => mb,
            Err(e) => {
                assert(generated(Err(e)));
                return Err(GameError::Generation(e));
            },
        };
        let ghost base = map_builder;
        assert(generated(Ok(base)));
        let r = match self.enter_level(player_entity, map_builder) {
            Ok(_) => Ok(()),
            Err(e) => Err(GameError::Defect(e)),
        };
        proof {
            assert(old(self).ecs@.player().unwrap() == player_entity);
            assert(self.entered(old(self).ecs@, player_entity, &base, r.is_ok()));
            assert(level_left(r));
            assert(advanced(old(self), self, r));
        }
        r
    }

    /// Lets the player enter the generated level `mb`: everything is
    /// despawned but the player and what lies in the player's pack, no
    /// intent is left, every field of view that is left is out of date, and
    /// the player stands at the start of `mb` with one level more behind.
    /// The last level gets the amulet, every other a way down. The level is
    /// stocked, the window is centred on the player, and input is awaited.
    /// Fails, with all but the rest of the stock in place, where a kind
    /// that is drawn cannot be made.
    #[verifier::rlimit(60)]
    pub fn enter_level(&mut self, player: Entity, mb: MapBuilder) -> (r: Result<(), Defect>)
        requires
            old(self).wf(),
            mb.playable(),
            old(self).ecs@.player() == Some(player),
        ensures
            final(self).wf(),
            final(self).pointer == old(self).pointer,
            final(self).templates == old(self).templates,
            final(self).entered(old(self).ecs@, player, &mb, r.is_ok()),
            r matches Err(e) ==> e == Defect::EnemyWithoutHealth,
            old(self).templates.makeable(level_after(old(self).ecs@, player) as usize) ==> r.is_ok(),
            final(self).arrived(old(self).ecs@),
            entered_level(final(self).ecs@) == level_after(old(self).ecs@, player),
            pack_unplaced(old(self).ecs@, player) ==> final(self).well_placed(),
    {
        let ghost base = mb;
        let mut mb = mb;
        let start = mb.player_start;
        let ghost goal = mb.amulet_start;
        let player_entity = player;
        let ghost before = self.ecs@;
        proof {
            lemma_first_player_is_player(before, before.entries.len() as int);
        }
        let mut map_level: u32 = 0;
        let mut i: usize = 0;
        while i < self.ecs.entries.len()
            invariant
                self.ecs.wf(),
                self.map == old(self).map,
                self.turn_state == old(self).turn_state,
                self.templates == old(self).templates,
                self.pointer == old(self).pointer,
                i <= self.ecs.entries.len(),
                self.ecs.entries.len() == before.entries.len(),
                before.player() == Some(player_entity),
                player_entity.0 < before.entries.len(),
                before.entries[player_entity.0 as int].is_some(),
                before.entries[player_entity.0 as int].unwrap().player.is_some(),
                player_entity.0 < i ==> map_level == spec_next_level(
                    before.entries[player_entity.0 as int].unwrap().player.unwrap().map_level,
                ),
                forall|j: int|
                    0 <= j < self.ecs.entries.len() ==> #[trigger] self.ecs@.entries[j] == (if j < i {
                        spec_survivor(before.entries[j], j, player_entity, start)
                    } else {
                        before.entries[j]
                    }),
            decreases self.ecs.entries.len() - i,
        {
            let ghost mid = self.ecs@;
            assert(mid.entries[i as int] == before.entries[i as int]);
            let keep = i == player_entity.0 || match &self.ecs.entries[i] {
                Some(c) => match c.carried {
                    Some(carried) => carried.0.0 == player_entity.0,
                    None => false,
                },
                None => false,
            };
            if keep {
                match &mut self.ecs.entries[i] {
                    Some(c) => {
                        match &mut c.field_of_view {
                            Some(fov) => {
                                fov.is_dirty = true;
                            },
                            None => {},
                        }
                        if i == player_entity.0 {
                            match &mut c.player {
                                Some(player) => {
                                    if player.map_level < u32::MAX {
                                        player.map_level = player.map_level + 1;
                                    }
                                    map_level = player.map_level;
                                },
                                None => {},
                            }
                            c.position = Some(start);
                        }
                    },
                    None => {},
                }
            } else {
                self.ecs.entries.set(i, None);
            }
            proof {
                assert(self.ecs@.entries[i as int] == spec_survivor(
                    before.entries[i as int],
                    i as int,
                    player_entity,
                    start,
                ));
                assert forall|j: int| 0 <= j < self.ecs.entries.len() implies #[trigger] self.ecs@.entries[j]
                    == (if j < i + 1 {
                    spec_survivor(before.entries[j], j, player_entity, start)
                } else {
                    before.entries[j]
                }) by {
                    if j != i {
                        assert(self.ecs@.entries[j] == mid.entries[j]);
                    }
                }
            }
            i = i + 1;
        }
        let ghost cleared = self.ecs@;
        self.ecs.wants_to_move.clear();
        self.ecs.wants_to_attack.clear();
        self.ecs.activations.clear();
        let ghost left = self.ecs@;
        proof {
            assert(left.entries =~= cleared.entries);
            assert forall|j: int| 0 <= j < left.entries.len() implies #[trigger] left.entries[j]
                == spec_survivor(before.entries[j], j, player_entity, start) by {
                assert(cleared.entries[j] == spec_survivor(
                    before.entries[j],
                    j,
                    player_entity,
                    start,
                ));
            }
            lemma_player_survives(before, left, player_entity, start, before.entries.len() as int);
            assert(map_level == level_after(before, player));
            let clean = swept(before, player, start);
            assert(left.entries =~= clean.entries);
            assert(left.wants_to_move =~= clean.wants_to_move);
            assert(left.wants_to_attack =~= clean.wants_to_attack);
            assert(left.activations =~= clean.activations);
            assert(left == clean);
        }
        if map_level == LAST_LEVEL {
            proof {
                lemma_amulet_lies_open(&mb);
            }
            spawn_amulet_of_yala(&mut self.ecs, mb.amulet_start);
        } else {
            mb.place_exit();
        }
        let ghost furnished = self.ecs@;
        let ghost new_tiles = mb.map.tiles@;
        proof {
            assert(furnished == with_goal(swept(before, player, start), goal, map_level));
            assert(new_tiles == goal_tiles(&base, map_level));
            assert(mb.monster_spawns@ == base.monster_spawns@);
            if map_level != LAST_LEVEL {
                assert(only_exit(new_tiles, base.amulet_idx()));
            }
            if pack_unplaced(before, player_entity) {
                lemma_survivors_well_placed(before, left, player_entity, start, new_tiles);
                assert forall|j: int| 0 <= j < furnished.entries.len() implies row_placed(
                    #[trigger] furnished.entries[j],
                    new_tiles,
                ) by {
                    if j < left.entries.len() {
                        assert(furnished.entries[j] == left.entries[j]);
                        assert(row_placed(left.entries[j], new_tiles));
                    }
                }
            }
        }
        let level = map_level as usize;
        assert(self.templates.entries(level) < i32::MAX);
        let stocking = spawn_level(
            &mut self.ecs,
            &mut self.rng,
            level,
            &mb.monster_spawns,
            &self.templates,
        );
        self.camera = Camera::new(start);
        self.map = mb.map;
        self.turn_state = TurnState::AwaitingInput;
        self.theme = mb.theme;
        proof {
            let w = self.ecs@;
            assert forall|j: int| 0 <= j < before.entries.len() implies #[trigger] w.entries[j]
                == spec_survivor(before.entries[j], j, player_entity, start) by {
                assert(w.entries.subrange(0, furnished.entries.len() as int)[j]
                    == furnished.entries[j]);
                assert(furnished.entries[j] == left.entries[j]);
            }
            lemma_player_kept(left, w, player_entity, left.entries.len() as int, w.entries.len() as int);
            assert(w.entries[player_entity.0 as int] == spec_survivor(
                before.entries[player_entity.0 as int],
                player_entity.0 as int,
                player_entity,
                start,
            ));
            assert(entered_level(w) == map_level);
            lemma_stock_newly_made(
                furnished,
                w,
                self.templates.entities@,
                level,
                mb.monster_spawns@,
            );
            assert forall|j: int| 0 <= j < w.entries.len() implies ((#[trigger] w.entries[j]) matches Some(
                c,
            ) ==> (c.field_of_view matches Some(fov) ==> fov.is_dirty)) by {
                if j >= furnished.entries.len() {
                    assert(newly_made(w.entries[j]));
                } else if j >= before.entries.len() {
                    assert(w.entries.subrange(0, furnished.entries.len() as int)[j]
                        == furnished.entries[j]);
                }
            }
            if map_level != LAST_LEVEL {
                assert forall|j: int|
                    0 <= j < w.entries.len() && is_amulet(#[trigger] w.entries[j]) implies j
                    < before.entries.len() && is_amulet(before.entries[j]) by {
                    if j >= before.entries.len() {
                        assert(newly_made(w.entries[j]));
                    }
                }
            }
            if map_level == LAST_LEVEL {
                let row = before.entries.len() as int;
                assert(w.entries.subrange(0, furnished.entries.len() as int)[row]
                    == furnished.entries[row]);
                assert(w.entries[row] == Some(amulet_components(goal)));
            } else {
                assert(self.leads_down(goal));
            }
            if pack_unplaced(before, player_entity) {
                lemma_stocked_well_placed(
                    furnished,
                    w,
                    self.templates.entities@,
                    level,
                    mb.monster_spawns@,
                    new_tiles,
                );
            }
        }
        stocking
    }

    /// Starts the game anew on a first level, which is generated and
    /// stocked as it is for a new game. Fails, with nothing changed, where
    /// the level cannot be generated or a kind that is drawn cannot be made.
    #[verifier::rlimit(40)]
    pub fn reset_game_state(&mut self) -> (r: Result<(), GameError>)
        requires
            old(self).wf(),
        ensures
            final(self).wf(),
            final(self).templates == old(self).templates,
            final(self).pointer == old(self).pointer,
            restarted(old(self), final(self), r),
            match r {
                Ok(_) => {
                    &&& final(self).fresh()
                    &&& final(self).well_placed()
                    &&& begun(final(self).ecs@)
                    &&& final(self).has_goal(None)
                },
                Err(_) => true,
            },
    {
        let (ecs, map_builder) = match first_level(&mut self.rng, &self.templates) {
            Ok(level) => level,
            Err(e) => {
                return Err(e);
            },
        };
        let ghost base = choose|mb: MapBuilder|
            generated(Ok(mb)) && #[trigger] started(
                &mb,
                ecs@,
                &map_builder,
                self.templates.entities@,
            );
        let ghost goal = map_builder.amulet_start;
        self.ecs = ecs;
        self.camera = Camera::new(map_builder.player_start);
        self.map = map_builder.map;
        self.turn_state = TurnState::AwaitingInput;
        self.theme = map_builder.theme;
        assert(self.leads_down(goal));
        assert(self.begun_on(&base));
        Ok(())
    }

    /// The pass of the player's turn: movement, combat, the use of items,
    /// the visibility refresh and the end of the turn. It leaves no intent
    /// behind.
    #[verifier::rlimit(40)]
    pub fn run_player_turn(&mut self, key: &Option<Action>)
        requires
            old(self).wf(),
        ensures
            final(self).wf(),
            final(self).map.tiles == old(self).map.tiles,
            final(self).templates == old(self).templates,
            final(self).theme == old(self).theme,
            final(self).pointer == old(self).pointer,
            final(self)@ == old(self)@.after_pass(
                player_pass(),
                old(self).map.tiles@,
                *key,
                Seq::empty(),
                5,
            ),
            final(self).ecs@.wants_to_move.len() == 0,
            final(self).ecs@.wants_to_attack.len() == 0,
            final(self).ecs@.activations.len() == 0,
            final(self).turn_state == spec_end_turn(
                final(self).ecs@,
                final(self).map.tiles@,
                old(self).turn_state,
            ),
            old(self).well_placed() ==> final(self).well_placed(),
    {
        let ghost before = self@;
        let ghost tiles = self.map.tiles@;
        let schedule = build_player_scheduler();
        let r = self.execute(&schedule, key);
        proof {
            let rolls = choose|rolls: Seq<Seq<int>>|
                #[trigger] ran(before, self@, player_pass(), tiles, *key, rolls, r.is_ok());
            lemma_player_pass(before, self@, tiles, *key, rolls, r.is_ok());
        }
    }

    /// The pass of the monsters' turn: the wanderers, the chasers,
    /// movement, combat, the visibility refresh and the end of the turn.
    /// It leaves no intent to move or to attack behind. Without a player
    /// on the grid it stops at the chasers and reports the defect; what
    /// the wanderers have filed by then stays filed, and nothing else has
    /// changed.
    #[verifier::rlimit(40)]
    pub fn run_monster_turn(&mut self, key: &Option<Action>) -> (r: Result<(), Defect>)
        requires
            old(self).wf(),
        ensures
            final(self).wf(),
            final(self).map.tiles == old(self).map.tiles,
            final(self).templates == old(self).templates,
            final(self).theme == old(self).theme,
            final(self).pointer == old(self).pointer,
            r.is_err() == player_position(old(self).ecs@).is_none(),
            r matches Err(e) ==> e == Defect::NoPlayer,
            exists|rolls: Seq<Seq<int>>|
                #[trigger] monsters_ran(
                    old(self)@,
                    final(self)@,
                    old(self).map.tiles@,
                    *key,
                    rolls,
                ),
            r.is_err() ==> {
                &&& final(self).ecs@.entries == old(self).ecs@.entries
                &&& final(self).turn_state == old(self).turn_state
            },
            r.is_ok() ==> {
                &&& final(self).ecs@.wants_to_move.len() == 0
                &&& final(self).ecs@.wants_to_attack.len() == 0
                &&& final(self).turn_state == spec_end_turn(
                    final(self).ecs@,
                    final(self).map.tiles@,
                    old(self).turn_state,
                )
            },
            old(self).well_placed() ==> final(self).well_placed(),
    {
        let ghost before = self@;
        let ghost tiles = self.map.tiles@;
        let schedule = build_monster_scheduler();
        let r = self.execute(&schedule, key);
        proof {
            let rolls = choose|rolls: Seq<Seq<int>>|
                #[trigger] ran(before, self@, monster_pass(), tiles, *key, rolls, r.is_ok());
            lemma_monster_pass(before, self@, tiles, *key, rolls, r.is_ok());
        }
        r
    }

    /// One frame of the game. The place of the pointer is kept for those
    /// who draw. While input is awaited, a command of the
    /// player is turned into intents and the player's turn begins. In the
    /// player's and in the monsters' turn the pass of that turn runs. When
    /// the level is left the next one is entered. When the game is over or
    /// won, the command that would use the first item starts it anew, and
    /// nothing else does anything.
    #[verifier::rlimit(40)]
    pub fn tick(&mut self, command: Option<Action>, pointer_position: Point) -> (r: Result<
        (),
        GameError,
    >)
        requires
            old(self).wf(),
        ensures
            final(self).wf(),
            final(self).pointer == pointer_position,
            r.is_ok() && old(self).well_placed() && (old(self).turn_state == TurnState::NextLevel
                ==> old(self).ecs@.player().is_some() && pack_unplaced(
                old(self).ecs@,
                old(self).ecs@.player().unwrap(),
            )) ==> final(self).well_placed(),
            match old(self).turn_state {
                TurnState::AwaitingInput => {
                    &&& final(self).map.tiles == old(self).map.tiles
                    &&& final(self)@ == old(self)@.after_input(command)
                    &&& r.is_err() == (command.is_some() && placed_player(old(self).ecs@).is_none())
                    &&& r matches Err(e) ==> e == GameError::Defect(Defect::NoPlayer)
                },
                TurnState::PlayerTurn => {
                    &&& r.is_ok()
                    &&& final(self).map.tiles == old(self).map.tiles
                    &&& final(self)@ == old(self)@.after_pass(
                        player_pass(),
                        old(self).map.tiles@,
                        command,
                        Seq::empty(),
                        5,
                    )
                    &&& final(self).ecs@.wants_to_move.len() == 0
                    &&& final(self).ecs@.wants_to_attack.len() == 0
                    &&& final(self).ecs@.activations.len() == 0
                },
                TurnState::MonsterTurn => {
                    &&& final(self).map.tiles == old(self).map.tiles
                    &&& r.is_err() == player_position(old(self).ecs@).is_none()
                    &&& r matches Err(e) ==> e == GameError::Defect(Defect::NoPlayer)
                    &&& exists|rolls: Seq<Seq<int>>|
                        #[trigger] monsters_ran(
                            old(self)@,
                            final(self)@,
                            old(self).map.tiles@,
                            command,
                            rolls,
                        )
                    &&& r.is_ok() ==> {
                        &&& final(self).ecs@.wants_to_move.len() == 0
                        &&& final(self).ecs@.wants_to_attack.len() == 0
                    }
                    &&& r.is_err() ==> {
                        &&& final(self).ecs@.entries == old(self).ecs@.entries
                        &&& final(self).turn_state == old(self).turn_state
                    }
                },
                TurnState::NextLevel => {
                    &&& old(self).ecs@.player().is_none() <==> r == Err::<(), GameError>(
                        GameError::Defect(Defect::NoPlayer),
                    )
                    &&& advanced(old(self), final(self), r)
                    &&& level_left(r) && old(self).ecs@.player().is_some() ==> final(self).arrived(
                        old(self).ecs@,
                    )
                },
                TurnState::GameOver | TurnState::Victory => if command == Some(Action::UseItem(0)) {
                    &&& restarted(old(self), final(self), r)
                    &&& r.is_ok() ==> final(self).fresh() && begun(final(self).ecs@)
                        && final(self).has_goal(None)
                } else {
                    r.is_ok() && unchanged(old(self), final(self))
                },
            },
    {
        self.pointer = pointer_position;
        let current_state = self.turn_state;
        proof {
            if current_state == TurnState::AwaitingInput {
                reveal(GameView::after);
            }
            if self.well_placed() {
                lemma_after_keeps_placed(
                    self@,
                    System::PlayerInput,
                    self.map.tiles@,
                    command,
                    Seq::empty(),
                );
            }
        }
        match current_state {
            TurnState::AwaitingInput => {
                match self.run_system(System::PlayerInput, &command) {
                    Ok(_) => Ok(()),
                    Err(e) => Err(GameError::Defect(e)),
                }
            },
            TurnState::PlayerTurn => {
                self.run_player_turn(&command);
                Ok(())
            },
            TurnState::MonsterTurn => {
                match self.run_monster_turn(&command) {
                    Ok(_) => Ok(()),
                    Err(e) => Err(GameError::Defect(e)),
                }
            },
            TurnState::GameOver | TurnState::Victory => {
                let restart = match command {
                    Some(Action::UseItem(n)) => n == 0,
                    _ => false,
                };
                if restart {
                    self.reset_game_state()
                } else {
                    Ok(())
                }
            },
            TurnState::NextLevel => self.advance_level(),
        }
    }
}

/// The tile on which the amulet lies can be entered.
pub proof fn lemma_amulet_lies_open(mb: &MapBuilder)
    requires
        mb.playable(),
    ensures
        enterable(mb.map.tiles@, mb.amulet_start),
{
    let sources = seq![mb.start_idx()];
    assert(sources[0] == mb.start_idx());
    lemma_reached_is_open(mb.map.tiles@, sources, mb.amulet_idx(), MAX_DEPTH as nat);
}

/// Whether `after` is `before` with nothing of the game changed: the
/// world, the level, the window, the theme and the phase are what they were.
pub open spec fn unchanged(before: &State, after: &State) -> bool {
    &&& after.ecs@ == before.ecs@
    &&& after.map == before.map
    &&& after.camera == before.camera
    &&& after.theme == before.theme
    &&& after.turn_state == before.turn_state
}

/// What a restart makes of the game: a game begun on a generated level,
/// or, where the level cannot be generated or a kind that is drawn cannot
/// be made, the error and nothing changed. A kind that cannot be made is
/// reported only where one occurs on the first level.
pub open spec fn restarted(before: &State, after: &State, r: Result<(), GameError>) -> bool {
    match r {
        Ok(_) => exists|mb: MapBuilder| generated(Ok(mb)) && #[trigger] after.begun_on(&mb),
        Err(GameError::Generation(e)) => generated(Err(e)) && unchanged(before, after),
        Err(GameError::Defect(e)) => e == Defect::EnemyWithoutHealth && !before.templates.makeable(0)
            && unchanged(before, after),
    }
}

/// What is left of the world when a level is left: the rows as they are
/// carried over, with the player at `start`, and no intent of any kind.
pub open spec fn swept(w: WorldView, player: Entity, start: Point) -> WorldView {
    WorldView {
        entries: Seq::new(
            w.entries.len(),
            |i: int| spec_survivor(w.entries[i], i, player, start),
        ),
        wants_to_move: Seq::empty(),
        wants_to_attack: Seq::empty(),
        activations: Seq::empty(),
    }
}

/// A level advance counts one level: where the player and the pack are
/// carried over, the player has one level more behind than before, and as
/// many as before once the counter has come to its end.
pub proof fn lemma_advance_counts_one_level(before: WorldView, after: WorldView)
    requires
        carried_over(before, after),
        before.entries.len() <= usize::MAX,
    ensures
        entered_level(after) == spec_next_level(entered_level(before)),
        entered_level(before) < u32::MAX ==> entered_level(after) == entered_level(before) + 1,
        entered_level(before) == u32::MAX ==> entered_level(after) == u32::MAX,
{
    let player = before.player().unwrap();
    lemma_first_player_is_player(before, before.entries.len() as int);
    assert(after.entries[player.0 as int] == spec_survivor(
        before.entries[player.0 as int],
        player.0 as int,
        player,
        placed_player(after).unwrap().1,
    ));
}

/// The number of levels that lie behind `player` once one more is left.
pub open spec fn level_after(w: WorldView, player: Entity) -> u32 {
    match w.get(player).player {
        Some(p) => spec_next_level(p.map_level),
        None => 0,
    }
}

/// Whether every field of view in the world is out of date.
pub open spec fn all_dirty(w: WorldView) -> bool {
    forall|i: int|
        0 <= i < w.entries.len() ==> ((#[trigger] w.entries[i]) matches Some(c) ==> (
        c.field_of_view matches Some(fov) ==> fov.is_dirty))
}

/// Whether a row is an amulet.
pub open spec fn is_amulet(row: Option<ComponentsView>) -> bool {
    row matches Some(c) && c.amulet_of_yala
}

/// Whether the tile at `goal` is a way down and no other tile is.
pub open spec fn only_exit(tiles: Seq<TileType>, goal: int) -> bool {
    &&& 0 <= goal < tiles.len()
    &&& forall|i: int|
        0 <= i < tiles.len() ==> ((#[trigger] tiles[i]) == TileType::Exit <==> i == goal)
}

/// Whether the goal of a level is in place and nothing else of its kind:
/// on the last level no tile is a way down; on every other level one tile
/// is, and no row of `after` is an amulet but one that `before` had as one
/// in the same row.
pub open spec fn goal_in_place(
    tiles: Seq<TileType>,
    before: WorldView,
    after: WorldView,
    level: u32,
) -> bool {
    if level == LAST_LEVEL {
        no_exit(tiles)
    } else {
        &&& exists|goal: int| #[trigger] only_exit(tiles, goal)
        &&& forall|j: int|
            0 <= j < after.entries.len() && is_amulet(#[trigger] after.entries[j]) ==> j
                < before.entries.len() && is_amulet(before.entries[j])
    }
}

/// Before the last level there is no amulet: where none was in the world
/// that was left, none is in the world of the level that was entered.
pub proof fn lemma_no_amulet_before_the_last_level(
    tiles: Seq<TileType>,
    before: WorldView,
    after: WorldView,
    level: u32,
)
    requires
        goal_in_place(tiles, before, after, level),
        level != LAST_LEVEL,
        forall|j: int| 0 <= j < before.entries.len() ==> !is_amulet(#[trigger] before.entries[j]),
    ensures
        forall|j: int| 0 <= j < after.entries.len() ==> !is_amulet(#[trigger] after.entries[j]),
{
}

/// Whether a row, if it holds an entity, holds no amulet and no field of
/// view that is up to date.
pub open spec fn newly_made(row: Option<ComponentsView>) -> bool {
    row matches Some(c) ==> !c.amulet_of_yala && (c.field_of_view matches Some(fov)
        ==> fov.is_dirty)
}

/// Every entity that stocking brings is newly made.
pub proof fn lemma_stock_newly_made(
    before: WorldView,
    after: WorldView,
    entities: Seq<Template>,
    level: usize,
    spawn_points: Seq<Point>,
)
    requires
        stocked(before, after, entities, level, spawn_points),
    ensures
        forall|j: int|
            before.entries.len() <= j < after.entries.len() ==> newly_made(
                #[trigger] after.entries[j],
            ),
{
    assert forall|j: int| before.entries.len() <= j < after.entries.len() implies newly_made(
        #[trigger] after.entries[j],
    ) by {
        assert(made_of(
            after.entries[j],
            entities,
            level,
            spawn_points[j - before.entries.len()],
        ));
    }
}

/// Whether the level was left for good: the new level was entered, with
/// or without all of its stock.
pub open spec fn level_left(r: Result<(), GameError>) -> bool {
    match r {
        Ok(_) => true,
        Err(GameError::Defect(e)) => e == Defect::EnemyWithoutHealth,
        Err(GameError::Generation(_)) => false,
    }
}

/// What a level advance makes of the game. Without a player, or where no
/// level can be generated, nothing changes. Else the player enters a
/// generated level, as `entered` says; the stock is whole unless a kind
/// that was drawn cannot be made, and whole in any case where every kind
/// that occurs on the level can be made.
pub open spec fn advanced(before: &State, after: &State, r: Result<(), GameError>) -> bool {
    match r {
        Err(GameError::Defect(Defect::NoPlayer)) => unchanged(before, after),
        Err(GameError::Generation(e)) => generated(Err(e)) && unchanged(before, after),
        _ => {
            let player = before.ecs@.player().unwrap();
            &&& level_left(r)
            &&& before.ecs@.player().is_some()
            &&& before.templates.makeable(level_after(before.ecs@, player) as usize) ==> r.is_ok()
            &&& exists|mb: MapBuilder|
                generated(Ok(mb)) && #[trigger] after.entered(before.ecs@, player, &mb, r.is_ok())
        },
    }
}

/// The world of a game that holds nothing but the player, as it is spawned at `start`.
pub open spec fn alone(start: Point) -> WorldView {
    WorldView {
        entries: seq![Some(player_components(start))],
        wants_to_move: Seq::empty(),
        wants_to_attack: Seq::empty(),
        activations: Seq::empty(),
    }
}

/// The tiles of the level `mb` once its goal is in place: the way down
/// where the amulet would lie on every level but the last, which holds
/// the amulet itself and is left as it was generated.
pub open spec fn goal_tiles(mb: &MapBuilder, level: u32) -> Seq<TileType> {
    if level == LAST_LEVEL {
        mb.map.tiles@
    } else {
        mb.map.tiles@.update(mb.amulet_idx(), TileType::Exit)
    }
}

/// The world once the goal of the level is in place: with the amulet
/// spawned where it lies on the last level, and as it was on every other.
pub open spec fn with_goal(w: WorldView, goal: Point, level: u32) -> WorldView {
    if level == LAST_LEVEL {
        w.apply(CommandView::Push(amulet_components(goal)))
    } else {
        w
    }
}

/// Whether `w` and `out` are the world and the level of a game that
/// starts on the generated level `mb`: the level is `mb` with the way down
/// in place, and the world holds the player at the start and behind it the
/// stock of the first level at the spawn points of `mb`.
pub open spec fn started(
    mb: &MapBuilder,
    w: WorldView,
    out: &MapBuilder,
    entities: Seq<Template>,
) -> bool {
    &&& out.map.tiles@ == goal_tiles(mb, 0)
    &&& out.map.revealed_tiles@ == mb.map.revealed_tiles@
    &&& out.rooms@ == mb.rooms@
    &&& out.monster_spawns@ == mb.monster_spawns@
    &&& out.player_start == mb.player_start
    &&& out.amulet_start == mb.amulet_start
    &&& out.theme == mb.theme
    &&& fully_stocked(alone(mb.player_start), w, entities, 0, mb.monster_spawns@)
}

/// Puts the player and the stock of the first level onto the generated
/// level `mb`, and the way down where its amulet would lie.
pub fn start_level(
    mb: MapBuilder,
    rng: &mut RandomNumberGenerator,
    templates: &Templates,
) -> (r: Result<(World, MapBuilder), Defect>)
    requires
        mb.playable(),
        templates.light(),
    ensures
        match r {
            Ok((ecs, out)) => {
                &&& started(&mb, ecs@, &out, templates.entities@)
                &&& ecs.wf()
                &&& out.has_exit()
                &&& begun(ecs@)
                &&& placed_player(ecs@) == Some((Entity(0), mb.player_start))
                &&& well_placed(ecs@, out.map.tiles@)
                &&& ecs@.wants_to_move.len() == 0
                &&& ecs@.wants_to_attack.len() == 0
                &&& ecs@.activations.len() == 0
            },
            Err(e) => e == Defect::EnemyWithoutHealth,
        },
        templates.makeable(0) ==> r.is_ok(),
{
    let ghost base = mb;
    let mut map_builder = mb;
    let mut ecs = World::new();
    spawn_player(&mut ecs, map_builder.player_start);
    map_builder.place_exit();
    let ghost lone = ecs@;
    proof {
        assert(lone.entries =~= alone(base.player_start).entries);
        assert(lone.wants_to_move =~= alone(base.player_start).wants_to_move);
        assert(lone.wants_to_attack =~= alone(base.player_start).wants_to_attack);
        assert(lone.activations =~= alone(base.player_start).activations);
        assert(lone == alone(base.player_start));
        assert(lone.entries[0] == Some(player_components(map_builder.player_start)));
        assert forall|i: int| 0 <= i < lone.entries.len() implies row_placed(
            #[trigger] lone.entries[i],
            map_builder.map.tiles@,
        ) by {}
    }
    assert(templates.entries(0) < i32::MAX);
    match spawn_level(&mut ecs, rng, 0, &map_builder.monster_spawns, templates) {
        Ok(_) => {},
        Err(e) => {
            return Err(e);
        },
    }
    proof {
        let w = ecs@;
        let start = map_builder.player_start;
        lemma_stocked_well_placed(
            lone,
            w,
            templates.entities@,
            0,
            map_builder.monster_spawns@,
            map_builder.map.tiles@,
        );
        assert(w.entries.subrange(0, 1)[0] == w.entries[0]);
        assert(w.entries[0] == Some(player_components(start)));
        assert(w.first_player(0).is_none());
        crate::world::lemma_first_player_found(w, 0, w.entries.len() as int);
        assert(placed_player(w) == Some((Entity(0), start)));
    }
    Ok((ecs, map_builder))
}

/// The first level of a game: a level is generated, and the player, the
/// stock and the way down are put onto it. Fails where the level cannot
/// be generated or a kind that is drawn cannot be made.
pub fn first_level(rng: &mut RandomNumberGenerator, templates: &Templates) -> (r: Result<
    (World, MapBuilder),
    GameError,
>)
    requires
        templates.light(),
    ensures
        match r {
            Ok((ecs, out)) => {
                &&& exists|mb: MapBuilder|
                    generated(Ok(mb)) && #[trigger] started(&mb, ecs@, &out, templates.entities@)
                &&& ecs.wf()
                &&& out.has_exit()
                &&& begun(ecs@)
                &&& placed_player(ecs@) == Some((Entity(0), out.player_start))
                &&& well_placed(ecs@, out.map.tiles@)
                &&& ecs@.wants_to_move.len() == 0
                &&& ecs@.wants_to_attack.len() == 0
                &&& ecs@.activations.len() == 0
            },
            Err(GameError::Defect(e)) => e == Defect::EnemyWithoutHealth && !templates.makeable(0),
            Err(GameError::Generation(e)) => generated(Err(e)),
        },
{
    let map_builder = match MapBuilder::new(rng) {
        Ok(mb) => mb,
        Err(e) => {
            return Err(GameError::Generation(e));
        },
    };
    let ghost base = map_builder;
    match start_level(map_builder, rng, templates) {
        Ok((ecs, out)) => {
            assert(started(&base, ecs@, &out, templates.entities@));
            Ok((ecs, out))
        },
        Err(e) => Err(GameError::Defect(e)),
    }
}

/// The player of the old level is the player of what is carried over.
pub proof fn lemma_player_survives(
    before: WorldView,
    after: WorldView,
    player: Entity,
    start: Point,
    n: int,
)
    requires
        0 <= n <= before.entries.len() <= usize::MAX,
        after.entries.len() == before.entries.len(),
        before.player() == Some(player),
        before.alive(player),
        before.get(player).player.is_some(),
        forall|j: int|
            0 <= j < before.entries.len() ==> #[trigger] after.entries[j] == spec_survivor(
                before.entries[j],
                j,
                player,
                start,
            ),
    ensures
        after.first_player(n) == before.first_player(n),
    decreases n,
{
    if n > 0 {
        lemma_player_survives(before, after, player, start, n - 1);
        assert(after.entries[n - 1] == spec_survivor(before.entries[n - 1], n - 1, player, start));
        if before.first_player(n - 1).is_none() {
            if before.entries[n - 1].is_some() && before.entries[n - 1].unwrap().player.is_some() {
                crate::world::lemma_first_player_found(before, n - 1, before.entries.len() as int);
            }
        }
    }
}

/// Rows that come behind the player leave the player who it is.
pub proof fn lemma_player_kept(before: WorldView, after: WorldView, player: Entity, m: int, n: int)
    requires
        0 <= m <= n <= after.entries.len(),
        m == before.entries.len(),
        before.player() == Some(player),
        forall|j: int| 0 <= j < m ==> #[trigger] after.entries[j] == before.entries[j],
    ensures
        after.first_player(n) == Some(player),
    decreases n,
{
    if n > m {
        lemma_player_kept(before, after, player, m, n - 1);
    } else {
        lemma_same_rows_same_player(before, after, m);
    }
}

/// Worlds that agree on their first rows agree on the player among them.
pub proof fn lemma_same_rows_same_player(a: WorldView, b: WorldView, n: int)
    requires
        0 <= n <= a.entries.len(),
        n <= b.entries.len(),
        forall|j: int| 0 <= j < n ==> #[trigger] a.entries[j] == b.entries[j],
    ensures
        a.first_player(n) == b.first_player(n),
    decreases n,
{
    if n > 0 {
        lemma_same_rows_same_player(a, b, n - 1);
        assert(a.entries[n - 1] == b.entries[n - 1]);
    }
}

} // verus!
