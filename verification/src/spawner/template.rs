//! Templates: the kinds of entities that levels are stocked with.

use vstd::prelude::*;
use bracket_random::prelude::RandomNumberGenerator;
use std::collections::HashSet;
use crate::components::{
    no_tiles, ColorPair, Components, ComponentsView, Damage, FieldOfView, FieldOfViewView, Health,
    Name, ProvidesHealing, Render,
};
use crate::geometry::Point;
use crate::rng::random_slice_entry;
use crate::spawner::plain_render;
use crate::systems::Defect;
use crate::map::{enterable, TileType};
use crate::world::{row_placed, well_placed, CommandView, World, WorldView};

verus! {

#[derive(Clone, Copy, Debug, PartialEq, Eq, Structural)]
pub enum EntityType {
    Enemy,
    Item,
}

/// One kind of entity.
#[derive(Debug)]
pub struct Template {
    pub entity_type: EntityType,
    /// The levels on which the kind occurs, the first level being 0.
    pub levels: HashSet<usize>,
    /// How often the kind occurs among the others.
    pub frequency: i32,
    pub name: String,
    pub glyph: char,
    /// What an item of the kind does for its user: the names of the
    /// effects, each with its strength.
    pub provides: Option<Vec<(String, i32)>>,
    /// The health of an enemy of the kind.
    pub hp: Option<i32>,
    pub base_damage: Option<i32>,
}

#[derive(Debug)]
pub struct Templates {
    pub entities: Vec<Template>,
}

/// The strength of the last of the first `n` effects that heals, if one does.
pub open spec fn healing_among(provides: Seq<(String, i32)>, n: int) -> Option<ProvidesHealing>
    decreases n,
{
    if n <= 0 {
        None
    } else if provides[n - 1].0@ == "Healing"@ {
        Some(ProvidesHealing { amount: provides[n - 1].1 })
    } else {
        healing_among(provides, n - 1)
    }
}

/// Whether one of the first `n` effects shows the level.
pub open spec fn maps_among(provides: Seq<(String, i32)>, n: int) -> bool
    decreases n,
{
    n > 0 && (provides[n - 1].0@ == "MagicMap"@ || maps_among(provides, n - 1))
}

impl Template {
    /// Whether the kind occurs on `level` at all.
    pub open spec fn occurs(&self, level: usize) -> bool {
        self.levels@.contains(level) && self.frequency > 0
    }

    /// Whether an entity of the kind can be made: an enemy needs health.
    pub open spec fn complete(&self) -> bool {
        self.entity_type == EntityType::Enemy ==> self.hp.is_some()
    }

    /// The effects of the kind.
    pub open spec fn effects(&self) -> Seq<(String, i32)> {
        match self.provides {
            Some(provides) => provides@,
            None => Seq::empty(),
        }
    }

    /// An entity of the kind as it is spawned at `pt`. An enemy chases the
    /// player, sees six tiles far and is in full health. An item heals or
    /// shows the level as its effects say; an effect of another name does
    /// nothing. What deals damage has it of its own, and is a weapon if it
    /// is an item.
    pub open spec fn components(&self, pt: Point) -> ComponentsView {
        let enemy = self.entity_type == EntityType::Enemy;
        ComponentsView {
            position: Some(pt),
            render: Some(plain_render(self.glyph)),
            name: Some(self.name@),
            item: !enemy,
            enemy,
            chasing_player: enemy,
            field_of_view: if enemy {
                Some(FieldOfViewView { visible_tiles: no_tiles(), radius: 6, is_dirty: true })
            } else {
                None
            },
            health: if enemy {
                Some(Health { current: self.hp.unwrap(), max: self.hp.unwrap() })
            } else {
                None
            },
            healing: healing_among(self.effects(), self.effects().len() as int),
            dungeon_map: maps_among(self.effects(), self.effects().len() as int),
            damage: match self.base_damage {
                Some(damage) => Some(Damage(damage)),
                None => None,
            },
            weapon: self.base_damage.is_some() && !enemy,
            ..ComponentsView::empty()
        }
    }
}

/// Whether a string reads as the given word.
pub fn reads(s: &String, word: &str) -> (b: bool)
    ensures
        b == (s@ == word@),
{
    *s == word.to_string()
}

/// The number of entries that the first `n` kinds have in a draw for
/// `level`: each kind that occurs there has as many as its frequency says.
pub open spec fn entries_upto(entities: Seq<Template>, level: usize, n: int) -> int
    decreases n,
{
    if n <= 0 {
        0
    } else {
        entries_upto(entities, level, n - 1) + if entities[n - 1].occurs(level) {
            entities[n - 1].frequency as int
        } else {
            0
        }
    }
}

/// The draw for `level` from the first `n` kinds: each kind that occurs
/// on the level stands in it, by its place in the list, as often as its
/// frequency says.
pub open spec fn spec_available(entities: Seq<Template>, level: usize, n: int) -> Seq<usize>
    decreases n,
{
    if n <= 0 {
        Seq::empty()
    } else if entities[n - 1].occurs(level) {
        spec_available(entities, level, n - 1) + Seq::new(
            entities[n - 1].frequency as nat,
            |k: int| (n - 1) as usize,
        )
    } else {
        spec_available(entities, level, n - 1)
    }
}

impl Templates {
    /// The number of entries in a draw for `level`.
    pub open spec fn entries(&self, level: usize) -> int {
        entries_upto(self.entities@, level, self.entities.len() as int)
    }

    /// The kinds that stand in a draw for `level`: each kind that occurs
    /// there, by its place in the list, as often as its frequency says.
    pub fn available(&self, level: usize) -> (kinds: Vec<usize>)
        requires
            self.entries(level) < i32::MAX,
        ensures
            kinds@ == spec_available(self.entities@, level, self.entities.len() as int),
            kinds.len() == self.entries(level),
            forall|k: int|
                0 <= k < kinds.len() ==> (#[trigger] kinds[k]) < self.entities.len()
                    && self.entities[kinds[k] as int].occurs(level),
    {
        let mut kinds: Vec<usize> = Vec::new();
        let mut i: usize = 0;
        while i < self.entities.len()
            invariant
                i <= self.entities.len(),
                self.entries(level) < i32::MAX,
                kinds@ == spec_available(self.entities@, level, i as int),
                kinds.len() == entries_upto(self.entities@, level, i as int),
                forall|k: int|
                    0 <= k < kinds.len() ==> (#[trigger] kinds[k]) < self.entities.len()
                        && self.entities[kinds[k] as int].occurs(level),
            decreases self.entities.len() - i,
        {
            let ghost drawn = kinds@;
            proof {
                lemma_entries_grow(
                    self.entities@,
                    level,
                    i as int + 1,
                    self.entities.len() as int,
                );
            }
            if self.entities[i].levels.contains(&level) {
                let mut n: i32 = 0;
                let ghost before = kinds.len();
                assert(kinds@ =~= drawn + Seq::new(0nat, |k: int| i));
                while n < self.entities[i].frequency
                    invariant
                        i < self.entities.len(),
                        self.entities[i as int].levels@.contains(level),
                        0 <= n,
                        n <= self.entities[i as int].frequency || (self.entities[i as int].frequency
                            <= 0 && n == 0),
                        kinds.len() == before + n,
                        kinds@ == drawn + Seq::new(n as nat, |k: int| i),
                        before + self.entities[i as int].frequency < i32::MAX,
                        forall|k: int|
                            0 <= k < kinds.len() ==> (#[trigger] kinds[k]) < self.entities.len()
                                && self.entities[kinds[k] as int].occurs(level),
                    decreases self.entities[i as int].frequency - n,
                {
                    kinds.push(i);
                    n = n + 1;
                    assert(kinds@ =~= drawn + Seq::new(n as nat, |k: int| i));
                }
                assert(self.entities[i as int].frequency > 0 ==> kinds@ =~= drawn + Seq::new(
                    self.entities[i as int].frequency as nat,
                    |k: int| i,
                ));
            }
            assert(kinds@ =~= spec_available(self.entities@, level, i as int + 1));
            i = i + 1;
        }
        kinds
    }

    /// Makes an entity of the kind `template` at `pt`. A kind of enemy
    /// without health spawns nothing and is reported.
    pub fn spawn_entity(&self, pt: &Point, template: &Template, ecs: &mut World) -> (r: Result<
        (),
        Defect,
    >)
        requires
            old(ecs).wf(),
        ensures
            final(ecs).wf(),
            match r {
                Ok(_) => template.complete() && final(ecs)@ == old(ecs)@.apply(
                    CommandView::Push(template.components(*pt)),
                ),
                Err(e) => e == Defect::EnemyWithoutHealth && !template.complete() && final(ecs)@
                    == old(ecs)@,
            },
    {
        let mut c = Components::empty();
        c.position = Some(*pt);
        c.render = Some(Render { color: ColorPair::plain(), glyph: template.glyph });
        c.name = Some(Name(template.name.clone()));
        match template.entity_type {
            EntityType::Item => {
                c.item = true;
            },
            EntityType::Enemy => {
                let hp = match template.hp {
                    Some(hp) => hp,
                    None => {
                        return Err(Defect::EnemyWithoutHealth);
                    },
                };
                c.enemy = true;
                c.field_of_view = Some(FieldOfView::new(6));
                c.chasing_player = true;
                c.health = Some(Health { current: hp, max: hp });
            },
        }
        if let Some(effects) = &template.provides {
            let mut i: usize = 0;
            while i < effects.len()
                invariant
                    i <= effects.len(),
                    c.wf(),
                    c@ == (ComponentsView {
                        healing: healing_among(effects@, i as int),
                        dungeon_map: maps_among(effects@, i as int),
                        ..c@
                    }),
                    c@.position == Some(*pt),
                    c@.render == Some(plain_render(template.glyph)),
                    c@.name == Some(template.name@),
                    c@.item == (template.entity_type != EntityType::Enemy),
                    c@.enemy == (template.entity_type == EntityType::Enemy),
                    c@ == (ComponentsView {
                        healing: c@.healing,
                        dungeon_map: c@.dungeon_map,
                        damage: None,
                        weapon: false,
                        ..template.components(*pt)
                    }),
                decreases effects.len() - i,
            {
                if reads(&effects[i].0, "Healing") {
                    c.healing = Some(ProvidesHealing { amount: effects[i].1 });
                } else if reads(&effects[i].0, "MagicMap") {
                    c.dungeon_map = true;
                }
                proof {
                    reveal_strlit("Healing");
                    reveal_strlit("MagicMap");
                    assert("Healing"@.len() == 7);
                    assert("MagicMap"@.len() == 8);
                }
                i = i + 1;
            }
        }
        if let Some(damage) = template.base_damage {
            c.damage = Some(Damage(damage));
            if template.entity_type == EntityType::Item {
                c.weapon = true;
            }
        }
        ecs.push(c);
        Ok(())
    }

    /// Whether an entity can be made of every kind that occurs on `level`.
    pub open spec fn makeable(&self, level: usize) -> bool {
        forall|k: int|
            0 <= k < self.entities.len() && (#[trigger] self.entities[k]).occurs(level)
                ==> self.entities[k].complete()
    }

    /// Stocks a level: at each spawn point an entity is made of a kind
    /// drawn from those that occur on the level, each with the weight of
    /// its frequency. Where no kind occurs nothing is spawned. The stocking
    /// stops at the first kind that is drawn and cannot be made.
    pub fn spawn_entities(
        &self,
        ecs: &mut World,
        rng: &mut RandomNumberGenerator,
        level: usize,
        spawn_points: &Vec<Point>,
    ) -> (r: Result<(), Defect>)
        requires
            old(ecs).wf(),
            self.entries(level) < i32::MAX,
        ensures
            final(ecs).wf(),
            stocked(old(ecs)@, final(ecs)@, self.entities@, level, spawn_points@),
            self.entries(level) == 0 ==> final(ecs)@ == old(ecs)@ && r.is_ok(),
            self.makeable(level) ==> r.is_ok(),
            match r {
                Ok(_) => fully_stocked(
                    old(ecs)@,
                    final(ecs)@,
                    self.entities@,
                    level,
                    spawn_points@,
                ),
                Err(e) => e == Defect::EnemyWithoutHealth && exists|k: int|
                    0 <= k < self.entities.len() && (#[trigger] self.entities[k]).occurs(level)
                        && !self.entities[k].complete(),
            },
    {
        let available_entities = self.available(level);
        let mut i: usize = 0;
        assert(ecs@.entries.subrange(0, ecs@.entries.len() as int) =~= ecs@.entries);
        while i < spawn_points.len()
            invariant
                ecs.wf(),
                i <= spawn_points.len(),
                available_entities.len() == self.entries(level),
                self.entries(level) < i32::MAX,
                forall|k: int|
                    0 <= k < available_entities.len() ==> (#[trigger] available_entities[k])
                        < self.entities.len() && self.entities[available_entities[k] as int].occurs(
                        level,
                    ),
                stocked(old(ecs)@, ecs@, self.entities@, level, spawn_points@),
                available_entities.len() == 0 ==> ecs@ == old(ecs)@,
                available_entities.len() > 0 ==> ecs@.entries.len() == old(ecs)@.entries.len() + i,
            decreases spawn_points.len() - i,
        {
            if let Some(kind) = random_slice_entry(rng, &available_entities) {
                let ghost before = ecs@;
                let template = &self.entities[*kind];
                match self.spawn_entity(&spawn_points[i], template, ecs) {
                    Ok(_) => {},
                    Err(e) => {
                        return Err(e);
                    },
                }
                proof {
                    let n = old(ecs)@.entries.len() as int;
                    assert(ecs@.entries[n + i] == Some(template.components(spawn_points[i as int])));
                    assert forall|j: int| n <= j < ecs@.entries.len() implies made_of(
                        #[trigger] ecs@.entries[j],
                        self.entities@,
                        level,
                        spawn_points@[j - n],
                    ) by {
                        if j < n + i {
                            assert(ecs@.entries[j] == before.entries[j]);
                        } else {
                            assert(self.entities@[*kind as int] == *template);
                        }
                    }
                    assert(ecs@.entries.subrange(0, n) =~= before.entries.subrange(0, n));
                }
            }
            i = i + 1;
        }
        Ok(())
    }
}

/// The sum of the frequencies of the first `n` kinds, those left out that are not positive.
pub open spec fn weight_upto(entities: Seq<Template>, n: int) -> int
    decreases n,
{
    if n <= 0 {
        0
    } else {
        weight_upto(entities, n - 1) + if entities[n - 1].frequency > 0 {
            entities[n - 1].frequency as int
        } else {
            0
        }
    }
}

/// A draw for a level holds no more entries than the frequencies sum up to.
pub proof fn lemma_entries_within_weight(entities: Seq<Template>, level: usize, n: int)
    ensures
        entries_upto(entities, level, n) <= weight_upto(entities, n),
    decreases n,
{
    if n > 0 {
        lemma_entries_within_weight(entities, level, n - 1);
    }
}

impl Templates {
    /// Whether a draw can be made for every level: none holds more entries
    /// than a draw can number.
    pub open spec fn light(&self) -> bool {
        forall|level: usize| #[trigger] self.entries(level) < i32::MAX
    }

    /// Whether the frequencies sum up to less than a draw can number.
    pub fn fits(&self) -> (b: bool)
        ensures
            b == (weight_upto(self.entities@, self.entities.len() as int) < i32::MAX),
            b ==> self.light(),
    {
        let mut weight: i64 = 0;
        let mut i: usize = 0;
        while i < self.entities.len()
            invariant
                i <= self.entities.len(),
                weight == weight_upto(self.entities@, i as int),
                0 <= weight < i32::MAX,
            decreases self.entities.len() - i,
        {
            if self.entities[i].frequency > 0 {
                weight = weight + self.entities[i].frequency as i64;
            }
            if weight >= i32::MAX as i64 {
                proof {
                    lemma_weight_grows(
                        self.entities@,
                        i as int + 1,
                        self.entities.len() as int,
                    );
                }
                return false;
            }
            i = i + 1;
        }
        proof {
            assert forall|level: usize| #[trigger] self.entries(level) < i32::MAX by {
                lemma_entries_within_weight(self.entities@, level, self.entities.len() as int);
            }
        }
        true
    }
}

/// The weight grows with the number of kinds that are counted.
pub proof fn lemma_weight_grows(entities: Seq<Template>, m: int, n: int)
    requires
        0 <= m <= n,
    ensures
        weight_upto(entities, m) <= weight_upto(entities, n),
    decreases n,
{
    if m < n {
        lemma_weight_grows(entities, m, n - 1);
    }
}

/// The draw holds more entries the more kinds are counted.
pub proof fn lemma_entries_grow(entities: Seq<Template>, level: usize, m: int, n: int)
    requires
        0 <= m <= n,
    ensures
        0 <= entries_upto(entities, level, m) <= entries_upto(entities, level, n),
    decreases n,
{
    if m < n {
        lemma_entries_grow(entities, level, m, n - 1);
    } else if n > 0 {
        lemma_entries_grow(entities, level, m - 1, n - 1);
    }
}

/// Whether a row is an entity of one of the kinds that occur on `level`, made at `pt`.
pub open spec fn made_of(
    row: Option<ComponentsView>,
    entities: Seq<Template>,
    level: usize,
    pt: Point,
) -> bool {
    exists|k: int|
        0 <= k < entities.len() && (#[trigger] entities[k]).occurs(level) && entities[k].complete()
            && row == Some(entities[k].components(pt))
}

/// Whether the stocking came to its end: what `stocked` says, and an
/// entity at every spawn point where a kind occurs on the level at all.
pub open spec fn fully_stocked(
    before: WorldView,
    after: WorldView,
    entities: Seq<Template>,
    level: usize,
    spawn_points: Seq<Point>,
) -> bool {
    &&& stocked(before, after, entities, level, spawn_points)
    &&& after.entries.len() == before.entries.len() + (if entries_upto(
        entities,
        level,
        entities.len() as int,
    ) > 0 {
        spawn_points.len()
    } else {
        0
    })
}

/// Stocking at spawn points that can be entered leaves everything standing well that did.
pub proof fn lemma_stocked_well_placed(
    before: WorldView,
    after: WorldView,
    entities: Seq<Template>,
    level: usize,
    spawn_points: Seq<Point>,
    tiles: Seq<TileType>,
)
    requires
        well_placed(before, tiles),
        stocked(before, after, entities, level, spawn_points),
        forall|i: int| 0 <= i < spawn_points.len() ==> enterable(tiles, #[trigger] spawn_points[i]),
    ensures
        well_placed(after, tiles),
{
    assert forall|j: int| 0 <= j < after.entries.len() implies row_placed(
        #[trigger] after.entries[j],
        tiles,
    ) by {
        let n = before.entries.len() as int;
        if j < n {
            assert(after.entries.subrange(0, n)[j] == after.entries[j]);
            assert(row_placed(before.entries[j], tiles));
        } else {
            assert(made_of(after.entries[j], entities, level, spawn_points[j - n]));
            assert(enterable(tiles, spawn_points[j - n]));
        }
    }
}

/// What stocking does to the world whatever is drawn: the rows that were
/// there stay as they are, the intents stay as they are, and the rows that
/// have come hold, in the order of the spawn points, an entity each of a
/// kind that occurs on the level.
pub open spec fn stocked(
    before: WorldView,
    after: WorldView,
    entities: Seq<Template>,
    level: usize,
    spawn_points: Seq<Point>,
) -> bool {
    &&& before.entries.len() <= after.entries.len() <= before.entries.len() + spawn_points.len()
    &&& after.entries.subrange(0, before.entries.len() as int) == before.entries
    &&& after.wants_to_move == before.wants_to_move
    &&& after.wants_to_attack == before.wants_to_attack
    &&& after.activations == before.activations
    &&& forall|j: int|
        before.entries.len() <= j < after.entries.len() ==> made_of(
            #[trigger] after.entries[j],
            entities,
            level,
            spawn_points[j - before.entries.len()],
        )
}

} // verus!
