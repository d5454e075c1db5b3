//! The entity store, and the buffer through which systems change its shape.
//!
//! A system reads the store while it scans the entities. What it wants to
//! spawn, despawn, attach or detach it queues in a `CommandBuffer`; the
//! queue is applied in order once the system is through.

use vstd::prelude::*;
use crate::components::{
    ActivateItem, Carried, Components, ComponentsView, Entity, FieldOfView, FieldOfViewView,
    WantsToAttack, WantsToMove,
};
use crate::geometry::Point;
use crate::map::{enterable, TileType};

verus! {

/// The entities with their components, one row each, and the intents that
/// wait for the system that consumes them. The row of a despawned entity
/// stays empty.
pub struct World {
    pub entries: Vec<Option<Components>>,
    pub wants_to_move: Vec<WantsToMove>,
    pub wants_to_attack: Vec<WantsToAttack>,
    pub activations: Vec<ActivateItem>,
}

/// The mathematical model of the world.
pub ghost struct WorldView {
    pub entries: Seq<Option<ComponentsView>>,
    pub wants_to_move: Seq<WantsToMove>,
    pub wants_to_attack: Seq<WantsToAttack>,
    pub activations: Seq<ActivateItem>,
}

/// The model of one row.
pub open spec fn row_view(row: Option<Components>) -> Option<ComponentsView> {
    match row {
        Some(c) => Some(c@),
        None => None,
    }
}

impl View for World {
    type V = WorldView;

    open spec fn view(&self) -> WorldView {
        WorldView {
            entries: Seq::new(self.entries.len() as nat, |i: int| row_view(self.entries[i])),
            wants_to_move: self.wants_to_move@,
            wants_to_attack: self.wants_to_attack@,
            activations: self.activations@,
        }
    }
}

/// A change to the shape of the world that waits in a buffer.
#[derive(Clone, Debug, PartialEq, Eq)]
pub enum Command {
    /// Spawns an entity with the given components.
    Push(Components),
    /// Despawns an entity.
    Remove(Entity),
    /// Gives an entity a position, in place of the one it may have.
    AddPosition(Entity, Point),
    /// Takes the position from an entity.
    RemovePosition(Entity),
    /// Gives an entity a field of view, in place of the one it may have.
    AddFieldOfView(Entity, FieldOfView),
    /// Puts an entity into a pack.
    AddCarried(Entity, Carried),
    /// Files the intent to move.
    Move(WantsToMove),
    /// Files the intent to attack.
    Attack(WantsToAttack),
    /// Files the intent to use an item.
    Activate(ActivateItem),
}

/// The mathematical model of a command.
pub ghost enum CommandView {
    Push(ComponentsView),
    Remove(Entity),
    AddPosition(Entity, Point),
    RemovePosition(Entity),
    AddFieldOfView(Entity, FieldOfViewView),
    AddCarried(Entity, Carried),
    Move(WantsToMove),
    Attack(WantsToAttack),
    Activate(ActivateItem),
}

impl View for Command {
    type V = CommandView;

    open spec fn view(&self) -> CommandView {
        match self {
            Command::Push(c) => CommandView::Push(c@),
            Command::Remove(e) => CommandView::Remove(*e),
            Command::AddPosition(e, p) => CommandView::AddPosition(*e, *p),
            Command::RemovePosition(e) => CommandView::RemovePosition(*e),
            Command::AddFieldOfView(e, fov) => CommandView::AddFieldOfView(*e, fov@),
            Command::AddCarried(e, c) => CommandView::AddCarried(*e, *c),
            Command::Move(m) => CommandView::Move(*m),
            Command::Attack(a) => CommandView::Attack(*a),
            Command::Activate(a) => CommandView::Activate(*a),
        }
    }
}

impl Command {
    /// A field of view that the command carries has an entry for every tile.
    pub open spec fn wf(&self) -> bool {
        match self {
            Command::Push(c) => c.wf(),
            Command::AddFieldOfView(_, fov) => fov.wf(),
            _ => true,
        }
    }
}

impl WorldView {
    /// Whether `e` names an entity that lives.
    pub open spec fn alive(self, e: Entity) -> bool {
        e.0 < self.entries.len() && self.entries[e.0 as int].is_some()
    }

    /// The components of the living entity `e`.
    pub open spec fn get(self, e: Entity) -> ComponentsView {
        self.entries[e.0 as int].unwrap()
    }

    /// The world with the components of the living entity `e` replaced.
    pub open spec fn with(self, e: Entity, c: ComponentsView) -> WorldView {
        WorldView { entries: self.entries.update(e.0 as int, Some(c)), ..self }
    }

    /// The world after one command. A command that names an entity which
    /// does not live changes nothing.
    pub open spec fn apply(self, command: CommandView) -> WorldView {
        match command {
            CommandView::Push(c) => WorldView { entries: self.entries.push(Some(c)), ..self },
            CommandView::Remove(e) => if self.alive(e) {
                WorldView { entries: self.entries.update(e.0 as int, None), ..self }
            } else {
                self
            },
            CommandView::AddPosition(e, p) => if self.alive(e) {
                self.with(e, ComponentsView { position: Some(p), ..self.get(e) })
            } else {
                self
            },
            CommandView::RemovePosition(e) => if self.alive(e) {
                self.with(e, ComponentsView { position: None, ..self.get(e) })
            } else {
                self
            },
            CommandView::AddFieldOfView(e, fov) => if self.alive(e) {
                self.with(e, ComponentsView { field_of_view: Some(fov), ..self.get(e) })
            } else {
                self
            },
            CommandView::AddCarried(e, c) => if self.alive(e) {
                self.with(e, ComponentsView { carried: Some(c), ..self.get(e) })
            } else {
                self
            },
            CommandView::Move(m) => WorldView {
                wants_to_move: self.wants_to_move.push(m),
                ..self
            },
            CommandView::Attack(a) => WorldView {
                wants_to_attack: self.wants_to_attack.push(a),
                ..self
            },
            CommandView::Activate(a) => WorldView {
                activations: self.activations.push(a),
                ..self
            },
        }
    }

    /// The world after the first `n` of `commands`, applied in order.
    pub open spec fn apply_upto(self, commands: Seq<CommandView>, n: int) -> WorldView
        decreases n,
    {
        if n <= 0 {
            self
        } else {
            self.apply_upto(commands, n - 1).apply(commands[n - 1])
        }
    }

    /// The world after `commands`, applied in order.
    pub open spec fn apply_all(self, commands: Seq<CommandView>) -> WorldView {
        self.apply_upto(commands, commands.len() as int)
    }

    /// The living entity with the least name that is the player, if there is one.
    pub open spec fn first_player(self, n: int) -> Option<Entity>
        decreases n,
    {
        if n <= 0 {
            None
        } else {
            match self.first_player(n - 1) {
                Some(e) => Some(e),
                None => if self.entries[n - 1].is_some() && self.entries[n - 1].unwrap().player.is_some() {
                    Some(Entity((n - 1) as usize))
                } else {
                    None
                },
            }
        }
    }

    /// The player: the living entity with the least name that is marked as one.
    pub open spec fn player(self) -> Option<Entity> {
        self.first_player(self.entries.len() as int)
    }
}

/// The models of a list of commands.
pub open spec fn command_views(commands: Seq<Command>) -> Seq<CommandView> {
    Seq::new(commands.len(), |i: int| commands[i]@)
}

impl World {
    /// Every field of view in the world has an entry for every tile.
    pub open spec fn wf(&self) -> bool {
        forall|i: int|
            0 <= i < self.entries.len() && (#[trigger] self.entries[i]).is_some()
                ==> self.entries[i].unwrap().wf()
    }

    pub fn new() -> (world: World)
        ensures
            world.wf(),
            world@.entries.len() == 0,
            world@.wants_to_move.len() == 0,
            world@.wants_to_attack.len() == 0,
            world@.activations.len() == 0,
    {
        World {
            entries: Vec::new(),
            wants_to_move: Vec::new(),
            wants_to_attack: Vec::new(),
            activations: Vec::new(),
        }
    }

    /// Spawns an entity with the given components and returns its name.
    pub fn push(&mut self, components: Components) -> (e: Entity)
        requires
            old(self).wf(),
            components.wf(),
        ensures
            final(self).wf(),
            e.0 == old(self).entries.len(),
            final(self)@ == old(self)@.apply(CommandView::Push(components@)),
    {
        let e = Entity(self.entries.len());
        self.entries.push(Some(components));
        assert(self@.entries =~= old(self)@.entries.push(Some(components@)));
        e
    }

    /// The components of `e`, if `e` lives.
    pub fn entry(&self, e: Entity) -> (r: Option<&Components>)
        ensures
            match r {
                Some(c) => self@.alive(e) && self@.get(e) == c@ && self.entries[e.0 as int] == Some(
                    *c,
                ),
                None => !self@.alive(e),
            },
    {
        if e.0 < self.entries.len() {
            match &self.entries[e.0] {
                Some(c) => Some(c),
                None => None,
            }
        } else {
            None
        }
    }

    /// The number of rows, living or not.
    pub fn len(&self) -> (n: usize)
        ensures
            n == self@.entries.len(),
    {
        self.entries.len()
    }

    /// The player, if there is one.
    pub fn find_player(&self) -> (r: Option<Entity>)
        ensures
            r == self@.player(),
            r matches Some(e) ==> self@.alive(e) && self@.get(e).player.is_some(),
    {
        let mut i: usize = 0;
        while i < self.entries.len()
            invariant
                i <= self.entries.len(),
                self@.first_player(i as int).is_none(),
            decreases self.entries.len() - i,
        {
            let found = match &self.entries[i] {
                Some(c) => c.player.is_some(),
                None => false,
            };
            if found {
                proof {
                    lemma_first_player_found(self@, i as int, self.entries.len() as int);
                }
                return Some(Entity(i));
            }
            i = i + 1;
        }
        None
    }

    /// Applies one command.
    pub fn apply(&mut self, command: Command)
        requires
            old(self).wf(),
            command.wf(),
        ensures
            final(self).wf(),
            final(self)@ == old(self)@.apply(command@),
    {
        match command {
            Command::Push(c) => {
                self.push(c);
            },
            Command::Remove(e) => {
                if e.0 < self.entries.len() {
                    self.entries.set(e.0, None);
                }
            },
            Command::AddPosition(e, p) => {
                if e.0 < self.entries.len() {
                    match &mut self.entries[e.0] {
                        Some(c) => {
                            c.position = Some(p);
                        },
                        None => {},
                    }
                }
            },
            Command::RemovePosition(e) => {
                if e.0 < self.entries.len() {
                    match &mut self.entries[e.0] {
                        Some(c) => {
                            c.position = None;
                        },
                        None => {},
                    }
                }
            },
            Command::AddFieldOfView(e, fov) => {
                if e.0 < self.entries.len() {
                    match &mut self.entries[e.0] {
                        Some(c) => {
                            c.field_of_view = Some(fov);
                        },
                        None => {},
                    }
                }
            },
            Command::AddCarried(e, carried) => {
                if e.0 < self.entries.len() {
                    match &mut self.entries[e.0] {
                        Some(c) => {
                            c.carried = Some(carried);
                        },
                        None => {},
                    }
                }
            },
            Command::Move(m) => {
                self.wants_to_move.push(m);
            },
            Command::Attack(a) => {
                self.wants_to_attack.push(a);
            },
            Command::Activate(a) => {
                self.activations.push(a);
            },
        }
        assert(self@.entries =~= old(self)@.apply(command@).entries);
    }
}

/// Whether a row stands on a tile that can be entered, if it stands anywhere.
pub open spec fn row_placed(row: Option<ComponentsView>, tiles: Seq<TileType>) -> bool {
    match row {
        Some(c) => match c.position {
            Some(p) => enterable(tiles, p),
            None => true,
        },
        None => true,
    }
}

/// Whether every entity that stands somewhere stands on a tile that can be entered.
pub open spec fn well_placed(w: WorldView, tiles: Seq<TileType>) -> bool {
    forall|i: int| 0 <= i < w.entries.len() ==> row_placed(#[trigger] w.entries[i], tiles)
}

/// Where a row stands, if it is an entity that stands somewhere.
pub open spec fn row_position(row: Option<ComponentsView>) -> Option<Point> {
    match row {
        Some(c) => c.position,
        None => None,
    }
}

/// Whether no entity stands elsewhere in `after` than it does in
/// `before`; an entity may have left its place.
pub open spec fn keeps_places(before: WorldView, after: WorldView) -> bool {
    after.entries.len() == before.entries.len() && forall|i: int|
        0 <= i < before.entries.len() ==> (#[trigger] row_position(after.entries[i])).is_none()
            || row_position(after.entries[i]) == row_position(before.entries[i])
}

/// Whether a command puts nothing on a tile that cannot be entered.
pub open spec fn places_well(command: CommandView, tiles: Seq<TileType>) -> bool {
    match command {
        CommandView::Push(c) => row_placed(Some(c), tiles),
        CommandView::AddPosition(_, p) => enterable(tiles, p),
        _ => true,
    }
}

/// Whether none of the commands from `from` on puts anything on a tile that cannot be entered.
pub open spec fn all_place_well(commands: Seq<CommandView>, tiles: Seq<TileType>, from: int) -> bool {
    forall|k: int| from <= k < commands.len() ==> places_well(#[trigger] commands[k], tiles)
}

/// Whether none of the commands from `from` on spawns an entity or gives one a position.
pub open spec fn places_nothing(commands: Seq<CommandView>, from: int) -> bool {
    forall|k: int|
        from <= k < commands.len() ==> !(#[trigger] commands[k] is Push) && !(commands[k]
            is AddPosition)
}

/// Commands that put nothing on a tile that cannot be entered leave a
/// world in which everything stands well as such a world.
pub proof fn lemma_apply_keeps_placed(
    w: WorldView,
    commands: Seq<CommandView>,
    tiles: Seq<TileType>,
    n: int,
)
    requires
        0 <= n <= commands.len(),
        well_placed(w, tiles),
        all_place_well(commands, tiles, 0),
    ensures
        well_placed(w.apply_upto(commands, n), tiles),
    decreases n,
{
    if n > 0 {
        lemma_apply_keeps_placed(w, commands, tiles, n - 1);
        let before = w.apply_upto(commands, n - 1);
        let after = before.apply(commands[n - 1]);
        assert(places_well(commands[n - 1], tiles));
        assert forall|i: int| 0 <= i < after.entries.len() implies row_placed(
            #[trigger] after.entries[i],
            tiles,
        ) by {
            if i < before.entries.len() {
                assert(row_placed(before.entries[i], tiles));
            }
        }
    }
}

/// Commands that place nothing put nothing on a tile that cannot be entered.
pub proof fn lemma_nothing_placed_is_well(commands: Seq<CommandView>, tiles: Seq<TileType>, from: int)
    requires
        places_nothing(commands, from),
    ensures
        all_place_well(commands, tiles, from),
{
    assert forall|k: int| from <= k < commands.len() implies places_well(
        #[trigger] commands[k],
        tiles,
    ) by {
        assert(!(commands[k] is Push));
    }
}

/// Where nothing stands elsewhere than it did, everything stands well that did.
pub proof fn lemma_kept_places_are_well(before: WorldView, after: WorldView, tiles: Seq<TileType>)
    requires
        well_placed(before, tiles),
        keeps_places(before, after),
    ensures
        well_placed(after, tiles),
{
    assert forall|i: int| 0 <= i < after.entries.len() implies row_placed(
        #[trigger] after.entries[i],
        tiles,
    ) by {
        assert(row_placed(before.entries[i], tiles));
        assert(row_position(after.entries[i]).is_none() || row_position(after.entries[i])
            == row_position(before.entries[i]));
    }
}

/// What two lists of commands that place nothing make when joined places nothing.
pub proof fn lemma_places_nothing_joined(a: Seq<CommandView>, b: Seq<CommandView>)
    requires
        places_nothing(a, 0),
        places_nothing(b, 0),
    ensures
        places_nothing(a + b, 0),
{
    assert forall|k: int| 0 <= k < (a + b).len() implies !(#[trigger] (a + b)[k] is Push) && !((a
        + b)[k] is AddPosition) by {
        if k < a.len() {
            assert((a + b)[k] == a[k]);
        } else {
            assert((a + b)[k] == b[k - a.len()]);
        }
    }
}

/// Whether every command files an intent and does nothing else.
pub open spec fn only_intents(commands: Seq<CommandView>) -> bool {
    forall|k: int|
        0 <= k < commands.len() ==> (#[trigger] commands[k] is Move) || (commands[k] is Attack)
            || (commands[k] is Activate)
}

/// Commands that only file intents leave the rows as they are.
pub proof fn lemma_intents_keep_rows(w: WorldView, commands: Seq<CommandView>, n: int)
    requires
        0 <= n <= commands.len(),
        only_intents(commands),
    ensures
        w.apply_upto(commands, n).entries == w.entries,
    decreases n,
{
    if n > 0 {
        lemma_intents_keep_rows(w, commands, n - 1);
        assert((commands[n - 1] is Move) || (commands[n - 1] is Attack) || (commands[n - 1]
            is Activate));
    }
}

/// What two lists of commands that only file intents make when joined only files intents.
pub proof fn lemma_only_intents_joined(a: Seq<CommandView>, b: Seq<CommandView>)
    requires
        only_intents(a),
        only_intents(b),
    ensures
        only_intents(a + b),
{
    assert forall|k: int| 0 <= k < (a + b).len() implies (#[trigger] (a + b)[k] is Move) || ((a
        + b)[k] is Attack) || ((a + b)[k] is Activate) by {
        if k < a.len() {
            assert((a + b)[k] == a[k]);
        } else {
            assert((a + b)[k] == b[k - a.len()]);
        }
    }
}

/// Whether none of the commands from `from` on files an intent.
pub open spec fn files_nothing(commands: Seq<CommandView>, from: int) -> bool {
    forall|k: int|
        from <= k < commands.len() ==> !(#[trigger] commands[k] is Move) && !(commands[k] is Attack)
            && !(commands[k] is Activate)
}

/// Commands that file no intent leave the intents that wait as they are.
pub proof fn lemma_apply_keeps_intents(w: WorldView, commands: Seq<CommandView>, n: int)
    requires
        0 <= n <= commands.len(),
        files_nothing(commands, 0),
    ensures
        w.apply_upto(commands, n).wants_to_move == w.wants_to_move,
        w.apply_upto(commands, n).wants_to_attack == w.wants_to_attack,
        w.apply_upto(commands, n).activations == w.activations,
    decreases n,
{
    if n > 0 {
        lemma_apply_keeps_intents(w, commands, n - 1);
        assert(!(commands[n - 1] is Move));
    }
}

/// The first player among the rows below `n` is a living entity there,
/// and a player.
pub proof fn lemma_first_player_is_player(w: WorldView, n: int)
    requires
        0 <= n <= w.entries.len() <= usize::MAX,
    ensures
        w.first_player(n) matches Some(e) ==> e.0 < n && w.alive(e) && w.get(e).player.is_some(),
    decreases n,
{
    if n > 0 {
        lemma_first_player_is_player(w, n - 1);
    }
}

/// The first entity marked as the player is the player.
pub proof fn lemma_first_player_found(w: WorldView, i: int, n: int)
    requires
        0 <= i < n <= w.entries.len(),
        w.first_player(i).is_none(),
        w.entries[i].is_some(),
        w.entries[i].unwrap().player.is_some(),
    ensures
        w.first_player(n) == Some(Entity(i as usize)),
    decreases n,
{
    if n > i + 1 {
        lemma_first_player_found(w, i, n - 1);
    }
}

/// The changes that a system has asked for and that wait to be applied.
pub struct CommandBuffer {
    pub commands: Vec<Command>,
}

impl View for CommandBuffer {
    type V = Seq<CommandView>;

    open spec fn view(&self) -> Seq<CommandView> {
        command_views(self.commands@)
    }
}

impl CommandBuffer {
    pub open spec fn wf(&self) -> bool {
        forall|i: int| 0 <= i < self.commands.len() ==> (#[trigger] self.commands[i]).wf()
    }

    pub fn new() -> (buffer: CommandBuffer)
        ensures
            buffer.wf(),
            buffer@.len() == 0,
    {
        CommandBuffer { commands: Vec::new() }
    }

    /// Queues a command behind those that wait.
    pub fn add(&mut self, command: Command)
        requires
            old(self).wf(),
            command.wf(),
        ensures
            final(self).wf(),
            final(self)@ == old(self)@.push(command@),
    {
        self.commands.push(command);
        assert(self@ =~= old(self)@.push(command@));
    }

    /// Applies the commands that wait to `world`, in the order in which they
    /// were queued, and leaves the buffer empty.
    pub fn flush(&mut self, world: &mut World)
        requires
            old(self).wf(),
            old(world).wf(),
        ensures
            final(self).wf(),
            final(self)@.len() == 0,
            final(world).wf(),
            final(world)@ == old(world)@.apply_all(old(self)@),
    {
        let mut rest: Vec<Command> = Vec::new();
        std::mem::swap(&mut self.commands, &mut rest);
        let ghost queued = command_views(rest@);
        assert(queued =~= old(self)@);
        for command in iter: rest
            invariant
                world.wf(),
                self.commands@.len() == 0,
                queued.len() == iter.seq().len(),
                forall|i: int| 0 <= i < iter.seq().len() ==> (#[trigger] iter.seq()[i]).wf(),
                forall|i: int| 0 <= i < iter.seq().len() ==> (#[trigger] iter.seq()[i])@ == queued[i],
                world@ == old(world)@.apply_upto(queued, iter.index() as int),
        {
            world.apply(command);
        }
    }
}

} // verus!
