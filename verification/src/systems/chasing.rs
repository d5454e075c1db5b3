//! Monsters that chase the player: each makes one step along the shortest
//! way to the player, or attacks where the player stands next to it.

use vstd::prelude::*;
use crate::components::{ComponentsView, Entity, WantsToAttack, WantsToMove};
use crate::distance::{is_lowest_exit, spec_distances, DistanceField};
use crate::geometry::Point;
use crate::map::{
    spec_exit, spec_exits, spec_exits_upto, spec_idx_point, spec_map_idx, TileGrid, TileType,
    NUM_TILES,
};
use crate::map_builder::MAX_DEPTH;
use crate::systems::Defect;
use crate::world::{
    lemma_places_nothing_joined, only_intents, places_nothing, Command, CommandBuffer,
    CommandView, World, WorldView,
};

verus! {

/// Whether a row is an entity with health that stands at `dest`.
pub open spec fn stands_at(row: Option<ComponentsView>, dest: Point) -> bool {
    row.is_some() && row.unwrap().position == Some(dest) && row.unwrap().health.is_some()
}

/// The attacks of `attacker` on the players among the first `n` rows that stand at `dest`.
pub open spec fn attacks_at(w: WorldView, attacker: Entity, dest: Point, n: int) -> Seq<
    CommandView,
>
    decreases n,
{
    if n <= 0 {
        Seq::empty()
    } else {
        let before = attacks_at(w, attacker, dest, n - 1);
        if stands_at(w.entries[n - 1], dest) && w.entries[n - 1].unwrap().player.is_some() {
            before.push(
                CommandView::Attack(WantsToAttack { attacker, victim: Entity((n - 1) as usize) }),
            )
        } else {
            before
        }
    }
}

/// Whether one of the first `n` rows is an entity with health that stands at `dest`.
pub open spec fn occupied(w: WorldView, dest: Point, n: int) -> bool
    decreases n,
{
    n > 0 && (occupied(w, dest, n - 1) || stands_at(w.entries[n - 1], dest))
}

/// What an entity files that is drawn to `dest`: an attack on the player
/// where the player stands there, the intent to move where nothing with
/// health stands there, and nothing where something else does.
pub open spec fn spec_intend(w: WorldView, entity: Entity, dest: Point) -> Seq<CommandView> {
    let attacks = attacks_at(w, entity, dest, w.entries.len() as int);
    if occupied(w, dest, w.entries.len() as int) {
        attacks
    } else {
        attacks.push(CommandView::Move(WantsToMove { entity, destination: dest }))
    }
}

/// Files what `entity` intends that is drawn to `destination`.
pub fn intend(ecs: &World, entity: Entity, destination: Point, commands: &mut CommandBuffer)
    requires
        old(commands).wf(),
    ensures
        final(commands).wf(),
        final(commands)@ == old(commands)@ + spec_intend(ecs@, entity, destination),
{
    let mut attacked = false;
    let mut i: usize = 0;
    while i < ecs.entries.len()
        invariant
            commands.wf(),
            i <= ecs.entries.len(),
            attacked == occupied(ecs@, destination, i as int),
            commands@ == old(commands)@ + attacks_at(ecs@, entity, destination, i as int),
        decreases ecs.entries.len() - i,
    {
        let (here, is_player) = match &ecs.entries[i] {
            Some(c) => (
                match c.position {
                    Some(p) => p == destination && c.health.is_some(),
                    None => false,
                },
                c.player.is_some(),
            ),
            None => (false, false),
        };
        assert(here == stands_at(ecs@.entries[i as int], destination));
        if here {
            if is_player {
                commands.add(Command::Attack(WantsToAttack { attacker: entity, victim: Entity(i) }));
                assert(commands@ =~= old(commands)@ + attacks_at(
                    ecs@,
                    entity,
                    destination,
                    i as int + 1,
                ));
            }
            attacked = true;
        }
        i = i + 1;
    }
    if !attacked {
        commands.add(Command::Move(WantsToMove { entity, destination }));
    }
    assert(commands@ =~= old(commands)@ + spec_intend(ecs@, entity, destination));
}

/// The number of the first of the exits at the least depth.
pub open spec fn lowest_exit(exits: Seq<usize>, dist: Seq<Option<u32>>) -> int {
    choose|k: int| is_lowest_exit(exits, dist, k)
}

/// There is one first exit at the least depth.
pub proof fn lemma_lowest_exit_unique(exits: Seq<usize>, dist: Seq<Option<u32>>, a: int, b: int)
    requires
        is_lowest_exit(exits, dist, a),
        is_lowest_exit(exits, dist, b),
    ensures
        a == b,
{
    let da = crate::distance::depth(dist[exits[a] as int]);
    let db = crate::distance::depth(dist[exits[b] as int]);
    assert(da <= db && db <= da);
}

/// Where a chaser at `pos` is drawn: nowhere if it has no exit; to the
/// player where the two are no further apart than one step along one axis;
/// else to the exit that lies nearest to the player.
pub open spec fn spec_chase_target(
    tiles: Seq<TileType>,
    dist: Seq<Option<u32>>,
    pos: Point,
    player_pos: Point,
) -> Option<Point> {
    let exits = spec_exits(tiles, spec_map_idx(pos.x as int, pos.y as int));
    if exits.len() == 0 {
        None
    } else if pos.distance_squared(player_pos) > 1 {
        Some(spec_idx_point(exits[lowest_exit(exits, dist)] as int))
    } else {
        Some(player_pos)
    }
}

/// Whether a row is a chaser that stands on the grid.
pub open spec fn chases(row: Option<ComponentsView>) -> bool {
    row.is_some() && row.unwrap().chasing_player && row.unwrap().position.is_some()
        && TileGrid::spec_in_bounds(row.unwrap().position.unwrap())
}

/// What the entity in row `i` files in a pass of the chasers.
pub open spec fn spec_chase_one(
    w: WorldView,
    tiles: Seq<TileType>,
    dist: Seq<Option<u32>>,
    player_pos: Point,
    i: int,
) -> Seq<CommandView> {
    if chases(w.entries[i]) {
        match spec_chase_target(tiles, dist, w.entries[i].unwrap().position.unwrap(), player_pos) {
            Some(dest) => spec_intend(w, Entity(i as usize), dest),
            None => Seq::empty(),
        }
    } else {
        Seq::empty()
    }
}

/// What the first `n` rows file in a pass of the chasers, in the order of the rows.
pub open spec fn spec_chasing_upto(
    w: WorldView,
    tiles: Seq<TileType>,
    dist: Seq<Option<u32>>,
    player_pos: Point,
    n: int,
) -> Seq<CommandView>
    decreases n,
{
    if n <= 0 {
        Seq::empty()
    } else {
        spec_chasing_upto(w, tiles, dist, player_pos, n - 1) + spec_chase_one(
            w,
            tiles,
            dist,
            player_pos,
            n - 1,
        )
    }
}

/// Where the player stands, if there is one and it stands on the grid.
pub open spec fn player_position(w: WorldView) -> Option<Point> {
    match w.player() {
        Some(player) => match w.get(player).position {
            Some(p) => if TileGrid::spec_in_bounds(p) {
                Some(p)
            } else {
                None
            },
            None => None,
        },
        None => None,
    }
}

/// Where the player stands, if there is one and it stands on the grid.
pub fn find_player_position(ecs: &World) -> (r: Option<Point>)
    ensures
        r == player_position(ecs@),
{
    match ecs.find_player() {
        Some(player) => match ecs.entry(player) {
            Some(c) => match c.position {
                Some(p) => if p.x >= 0 && p.x < crate::map::SCREEN_WIDTH && p.y >= 0 && p.y
                    < crate::map::SCREEN_HEIGHT {
                    Some(p)
                } else {
                    None
                },
                None => None,
            },
            None => None,
        },
        None => None,
    }
}

/// The pass of the chasers: every chaser files what it intends, in the
/// order of the rows. Without a player on the grid nothing is filed, and
/// the defect is reported.
pub fn chasing(map: &TileGrid, ecs: &World, commands: &mut CommandBuffer) -> (r: Result<
    (),
    Defect,
>)
    requires
        map.wf(),
        old(commands).wf(),
    ensures
        final(commands).wf(),
        match r {
            Ok(_) => player_position(ecs@).is_some() && final(commands)@ == old(commands)@
                + spec_chasing_upto(
                ecs@,
                map.tiles@,
                spec_distances(
                    map.tiles@,
                    seq![
                        spec_map_idx(
                            player_position(ecs@).unwrap().x as int,
                            player_position(ecs@).unwrap().y as int,
                        ) as usize,
                    ],
                    MAX_DEPTH as nat,
                ),
                player_position(ecs@).unwrap(),
                ecs@.entries.len() as int,
            ),
            Err(e) => e == Defect::NoPlayer && player_position(ecs@).is_none() && final(commands)@
                == old(commands)@,
        },
{
    let player_pos = match find_player_position(ecs) {
        Some(p) => p,
        None => {
            return Err(Defect::NoPlayer);
        },
    };
    let player_idx = map.point2d_to_index(player_pos);
    let mut search_targets: Vec<usize> = Vec::new();
    search_targets.push(player_idx);
    assert(search_targets@ =~= seq![player_idx]);
    let dijkstra_map = DistanceField::new(&search_targets, map, MAX_DEPTH);
    let ghost dist = dijkstra_map.map@;
    assert(commands@ + Seq::<CommandView>::empty() =~= commands@);
    let mut i: usize = 0;
    while i < ecs.entries.len()
        invariant
            map.wf(),
            commands.wf(),
            dijkstra_map.wf(),
            dist == dijkstra_map.map@,
            TileGrid::spec_in_bounds(player_pos),
            i <= ecs.entries.len(),
            commands@ == old(commands)@ + spec_chasing_upto(
                ecs@,
                map.tiles@,
                dist,
                player_pos,
                i as int,
            ),
        decreases ecs.entries.len() - i,
    {
        let ghost before = commands@;
        let mover = match &ecs.entries[i] {
            Some(c) => if c.chasing_player {
                c.position
            } else {
                None
            },
            None => None,
        };
        if let Some(pos) = mover {
            if let Some(idx) = map.try_idx(pos) {
                if let Some(destination) = DistanceField::find_lowest_exit(&dijkstra_map, idx, map) {
                    proof {
                        let exits = spec_exits(map.tiles@, idx as int);
                        let k = choose|k: int|
                            is_lowest_exit(exits, dist, k) && exits[k] == destination;
                        lemma_lowest_exit_unique(exits, dist, k, lowest_exit(exits, dist));
                        lemma_exits_on_grid(map.tiles@, idx as int, 4, k);
                    }
                    let destination = if apart(pos, player_pos) {
                        map.index_to_point2d(destination)
                    } else {
                        player_pos
                    };
                    intend(ecs, Entity(i), destination, commands);
                }
            }
        }
        proof {
            let one = spec_chase_one(ecs@, map.tiles@, dist, player_pos, i as int);
            assert(commands@ =~= before + one);
            assert(commands@ =~= old(commands)@ + spec_chasing_upto(
                ecs@,
                map.tiles@,
                dist,
                player_pos,
                i as int + 1,
            ));
        }
        i = i + 1;
    }
    Ok(())
}

/// Every exit is a tile of the grid.
pub proof fn lemma_exits_on_grid(tiles: Seq<TileType>, idx: int, n: int, k: int)
    requires
        0 <= k < spec_exits_upto(tiles, idx, n).len(),
    ensures
        spec_exits_upto(tiles, idx, n)[k] < NUM_TILES,
        exists|dir: int|
            0 <= dir < n && #[trigger] spec_exit(tiles, idx, dir) == Some(
                spec_exits_upto(tiles, idx, n)[k] as int,
            ),
    decreases n,
{
    if n > 0 {
        let before = spec_exits_upto(tiles, idx, n - 1);
        if k < before.len() {
            lemma_exits_on_grid(tiles, idx, n - 1, k);
            let dir = choose|dir: int|
                0 <= dir < n - 1 && #[trigger] spec_exit(tiles, idx, dir) == Some(
                    before[k] as int,
                );
            assert(spec_exit(tiles, idx, dir) == Some(spec_exits_upto(tiles, idx, n)[k] as int));
        } else {
            assert(spec_exit(tiles, idx, n - 1) == Some(spec_exits_upto(tiles, idx, n)[k] as int));
        }
    }
}

/// Whether two grid points lie further apart than one step along one axis.
pub fn apart(a: Point, b: Point) -> (far: bool)
    requires
        TileGrid::spec_in_bounds(a),
        TileGrid::spec_in_bounds(b),
    ensures
        far == (a.distance_squared(b) > 1),
{
    let dx: i32 = a.x - b.x;
    let dy: i32 = a.y - b.y;
    assert(0 <= dx * dx <= 6400 && 0 <= dy * dy <= 2500) by (nonlinear_arith)
        requires
            -80 < dx < 80,
            -50 < dy < 50,
    ;
    dx * dx + dy * dy > 1
}

/// Every command among the attacks is an attack, and the player that
/// stands at the destination is among the victims.
pub proof fn lemma_attacks_at(w: WorldView, attacker: Entity, dest: Point, n: int, victim: int)
    requires
        0 <= n <= w.entries.len(),
    ensures
        forall|k: int|
            0 <= k < attacks_at(w, attacker, dest, n).len() ==> #[trigger] attacks_at(
                w,
                attacker,
                dest,
                n,
            )[k] is Attack,
        0 <= victim < n && stands_at(w.entries[victim], dest)
            && w.entries[victim].unwrap().player.is_some() ==> attacks_at(
            w,
            attacker,
            dest,
            n,
        ).contains(CommandView::Attack(WantsToAttack { attacker, victim: Entity(victim as usize) })),
        0 <= victim < n && stands_at(w.entries[victim], dest) ==> occupied(w, dest, n),
    decreases n,
{
    if n > 0 {
        lemma_attacks_at(w, attacker, dest, n - 1, victim);
        let before = attacks_at(w, attacker, dest, n - 1);
        let after = attacks_at(w, attacker, dest, n);
        let wanted = CommandView::Attack(
            WantsToAttack { attacker, victim: Entity(victim as usize) },
        );
        if 0 <= victim < n && stands_at(w.entries[victim], dest)
            && w.entries[victim].unwrap().player.is_some() {
            if victim == n - 1 {
                assert(after[after.len() - 1] == wanted);
            } else {
                let k = choose|k: int| 0 <= k < before.len() && before[k] == wanted;
                assert(after[k] == wanted);
            }
        }
    }
}

/// What an entity files that is drawn somewhere places nothing.
pub proof fn lemma_intend_places_nothing(w: WorldView, entity: Entity, dest: Point)
    ensures
        places_nothing(spec_intend(w, entity, dest), 0),
{
    lemma_attacks_at(w, entity, dest, w.entries.len() as int, 0);
    let attacks = attacks_at(w, entity, dest, w.entries.len() as int);
    assert forall|k: int| 0 <= k < spec_intend(w, entity, dest).len() implies !(
    #[trigger] spec_intend(w, entity, dest)[k] is Push) && !(spec_intend(w, entity, dest)[k]
        is AddPosition) by {
        if k < attacks.len() {
            assert(attacks[k] is Attack);
        }
    }
}

/// What an entity files that is drawn somewhere is an intent.
pub proof fn lemma_intend_only_intents(w: WorldView, entity: Entity, dest: Point)
    ensures
        only_intents(spec_intend(w, entity, dest)),
{
    lemma_attacks_at(w, entity, dest, w.entries.len() as int, 0);
    let attacks = attacks_at(w, entity, dest, w.entries.len() as int);
    let filed = spec_intend(w, entity, dest);
    assert forall|k: int| 0 <= k < filed.len() implies (#[trigger] filed[k] is Move) || (filed[k]
        is Attack) || (filed[k] is Activate) by {
        if k < attacks.len() {
            assert(attacks[k] is Attack);
        }
    }
}

/// What the chasers file places nothing.
pub proof fn lemma_chasing_places_nothing(
    w: WorldView,
    tiles: Seq<TileType>,
    dist: Seq<Option<u32>>,
    player_pos: Point,
    n: int,
)
    requires
        0 <= n <= w.entries.len(),
    ensures
        places_nothing(spec_chasing_upto(w, tiles, dist, player_pos, n), 0),
    decreases n,
{
    if n > 0 {
        lemma_chasing_places_nothing(w, tiles, dist, player_pos, n - 1);
        let one = spec_chase_one(w, tiles, dist, player_pos, n - 1);
        if chases(w.entries[n - 1]) {
            match spec_chase_target(
                tiles,
                dist,
                w.entries[n - 1].unwrap().position.unwrap(),
                player_pos,
            ) {
                Some(dest) => {
                    lemma_intend_places_nothing(w, Entity((n - 1) as usize), dest);
                },
                None => {},
            }
        }
        lemma_places_nothing_joined(spec_chasing_upto(w, tiles, dist, player_pos, n - 1), one);
    }
}

/// A chaser that has an exit and stands no further from the player than one
/// step along one axis files an attack on the player and no intent to move.
pub proof fn lemma_adjacent_chaser_attacks(
    w: WorldView,
    tiles: Seq<TileType>,
    dist: Seq<Option<u32>>,
    player: Entity,
    chaser: int,
)
    requires
        w.alive(player),
        w.get(player).player.is_some(),
        w.get(player).health.is_some(),
        w.get(player).position.is_some(),
        0 <= chaser < w.entries.len(),
        chases(w.entries[chaser]),
        w.entries[chaser].unwrap().position.unwrap().distance_squared(
            w.get(player).position.unwrap(),
        ) <= 1,
        spec_exits(
            tiles,
            spec_map_idx(
                w.entries[chaser].unwrap().position.unwrap().x as int,
                w.entries[chaser].unwrap().position.unwrap().y as int,
            ),
        ).len() > 0,
    ensures
        ({
            let filed = spec_chase_one(w, tiles, dist, w.get(player).position.unwrap(), chaser);
            &&& filed.contains(
                CommandView::Attack(
                    WantsToAttack { attacker: Entity(chaser as usize), victim: player },
                ),
            )
            &&& forall|k: int| 0 <= k < filed.len() ==> #[trigger] filed[k] is Attack
        }),
{
    lemma_attacks_at(
        w,
        Entity(chaser as usize),
        w.get(player).position.unwrap(),
        w.entries.len() as int,
        player.0 as int,
    );
}

} // verus!
