//! Monsters that wander: each is drawn one step in a direction that the
//! dice pick.

use vstd::prelude::*;
use bracket_random::prelude::RandomNumberGenerator;
use crate::components::{ComponentsView, Entity};
use crate::geometry::Point;
use crate::map::{direction, spec_direction};
use crate::rng::range;
use crate::systems::chasing::{
    intend, lemma_intend_only_intents, lemma_intend_places_nothing, spec_intend,
};
use crate::world::{
    lemma_only_intents_joined, lemma_places_nothing_joined, only_intents, places_nothing,
    CommandBuffer, CommandView, World, WorldView,
};

verus! {

/// The point one step from `p` along `delta`, if its coordinates are numbers at hand.
pub open spec fn spec_offset(p: Point, delta: Point) -> Option<Point> {
    if i32::MIN <= p.x + delta.x <= i32::MAX && i32::MIN <= p.y + delta.y <= i32::MAX {
        Some(Point { x: (p.x + delta.x) as i32, y: (p.y + delta.y) as i32 })
    } else {
        None
    }
}

pub fn offset(p: Point, delta: Point) -> (r: Option<Point>)
    ensures
        r == spec_offset(p, delta),
{
    let x: i64 = p.x as i64 + delta.x as i64;
    let y: i64 = p.y as i64 + delta.y as i64;
    if -0x8000_0000 <= x && x <= 0x7fff_ffff && -0x8000_0000 <= y && y <= 0x7fff_ffff {
        Some(Point::new(x as i32, y as i32))
    } else {
        None
    }
}

/// Whether a row is a wanderer with a position.
pub open spec fn wanders(row: Option<ComponentsView>) -> bool {
    row.is_some() && row.unwrap().moving_randomly && row.unwrap().position.is_some()
}

/// What the entity in row `i` files when the dice show `roll`: what it
/// intends that is drawn one step left for 0, right for 1, up for 2 and
/// down else.
pub open spec fn spec_wander_one(w: WorldView, i: int, roll: int) -> Seq<CommandView> {
    if wanders(w.entries[i]) {
        match spec_offset(w.entries[i].unwrap().position.unwrap(), spec_direction(roll)) {
            Some(dest) => spec_intend(w, Entity(i as usize), dest),
            None => Seq::empty(),
        }
    } else {
        Seq::empty()
    }
}

/// What the first `n` rows file when the dice show `rolls[i]` for row `i`.
pub open spec fn spec_wander_upto(w: WorldView, rolls: Seq<int>, n: int) -> Seq<CommandView>
    decreases n,
{
    if n <= 0 {
        Seq::empty()
    } else {
        spec_wander_upto(w, rolls, n - 1) + spec_wander_one(w, n - 1, rolls[n - 1])
    }
}

/// What the rows file for the given rolls.
pub open spec fn spec_wander(w: WorldView, rolls: Seq<int>) -> Seq<CommandView> {
    spec_wander_upto(w, rolls, w.entries.len() as int)
}

/// The first `n` rows file the same whatever the rolls behind them are.
pub proof fn lemma_wander_same_rolls(w: WorldView, a: Seq<int>, b: Seq<int>, n: int)
    requires
        n <= a.len() <= b.len(),
        forall|k: int| 0 <= k < n ==> a[k] == b[k],
    ensures
        spec_wander_upto(w, a, n) == spec_wander_upto(w, b, n),
    decreases n,
{
    if n > 0 {
        lemma_wander_same_rolls(w, a, b, n - 1);
    }
}

/// What the wanderers file places nothing.
pub proof fn lemma_wander_places_nothing(w: WorldView, rolls: Seq<int>, n: int)
    requires
        0 <= n <= w.entries.len(),
    ensures
        places_nothing(spec_wander_upto(w, rolls, n), 0),
    decreases n,
{
    if n > 0 {
        lemma_wander_places_nothing(w, rolls, n - 1);
        let one = spec_wander_one(w, n - 1, rolls[n - 1]);
        if wanders(w.entries[n - 1]) {
            match spec_offset(w.entries[n - 1].unwrap().position.unwrap(), spec_direction(rolls[n - 1])) {
                Some(dest) => {
                    lemma_intend_places_nothing(w, Entity((n - 1) as usize), dest);
                },
                None => {},
            }
        }
        lemma_places_nothing_joined(spec_wander_upto(w, rolls, n - 1), one);
    }
}

/// What the wanderers file are intents and nothing else.
pub proof fn lemma_wander_only_intents(w: WorldView, rolls: Seq<int>, n: int)
    requires
        0 <= n <= w.entries.len(),
    ensures
        only_intents(spec_wander_upto(w, rolls, n)),
    decreases n,
{
    if n > 0 {
        lemma_wander_only_intents(w, rolls, n - 1);
        let one = spec_wander_one(w, n - 1, rolls[n - 1]);
        if wanders(w.entries[n - 1]) {
            match spec_offset(
                w.entries[n - 1].unwrap().position.unwrap(),
                spec_direction(rolls[n - 1]),
            ) {
                Some(dest) => {
                    lemma_intend_only_intents(w, Entity((n - 1) as usize), dest);
                },
                None => {},
            }
        }
        lemma_only_intents_joined(spec_wander_upto(w, rolls, n - 1), one);
    }
}

/// Files what the entity in row `i` intends when the dice show `roll`.
pub fn wander(ecs: &World, i: usize, roll: i32, commands: &mut CommandBuffer)
    requires
        old(commands).wf(),
        i < ecs.entries.len(),
        0 <= roll < 4,
    ensures
        final(commands).wf(),
        final(commands)@ == old(commands)@ + spec_wander_one(ecs@, i as int, roll as int),
{
    let mover = match &ecs.entries[i] {
        Some(c) => if c.moving_randomly {
            c.position
        } else {
            None
        },
        None => None,
    };
    assert(commands@ + Seq::<CommandView>::empty() =~= commands@);
    if let Some(pos) = mover {
        #[verifier::truncate]
        let dir = roll as u8;
        if let Some(destination) = offset(pos, direction(dir)) {
            intend(ecs, Entity(i), destination, commands);
        }
    }
}

/// The pass of the wanderers: every wanderer files what it intends, in
/// the order of the rows, each with a roll of its own.
pub fn random_move(ecs: &World, commands: &mut CommandBuffer, rng: &mut RandomNumberGenerator)
    requires
        old(commands).wf(),
    ensures
        final(commands).wf(),
        exists|rolls: Seq<int>|
            rolls.len() == ecs@.entries.len() && (forall|k: int|
                0 <= k < rolls.len() ==> 0 <= #[trigger] rolls[k] < 4) && final(commands)@
                == old(commands)@ + #[trigger] spec_wander(ecs@, rolls),
{
    let ghost mut rolls: Seq<int> = Seq::empty();
    assert(commands@ + Seq::<CommandView>::empty() =~= commands@);
    let mut i: usize = 0;
    while i < ecs.entries.len()
        invariant
            commands.wf(),
            i <= ecs.entries.len(),
            rolls.len() == i,
            forall|k: int| 0 <= k < rolls.len() ==> 0 <= #[trigger] rolls[k] < 4,
            commands@ == old(commands)@ + spec_wander_upto(ecs@, rolls, i as int),
        decreases ecs.entries.len() - i,
    {
        let roll = range(rng, 0, 4);
        let ghost before = commands@;
        wander(ecs, i, roll, commands);
        proof {
            let longer = rolls.push(roll as int);
            lemma_wander_same_rolls(ecs@, rolls, longer, i as int);
            assert(commands@ =~= old(commands)@ + spec_wander_upto(ecs@, longer, i as int + 1));
            rolls = longer;
        }
        i = i + 1;
    }
    assert(commands@ == old(commands)@ + spec_wander(ecs@, rolls));
}

} // verus!
