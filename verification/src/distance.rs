//! Shortest-path distances over the tile grid from a set of source tiles.
//!
//! A step leads from a tile to one of its four grid neighbours and is allowed
//! when the tile stepped onto holds no wall. The distance of a tile is the
//! least number of steps in which one of the sources reaches it.

use vstd::prelude::*;
use crate::geometry::Point;
use crate::map::{
    direction, passable, spec_direction, spec_exits, spec_idx_point, spec_step, TileGrid, TileType,
    NUM_TILES,
};

verus! {

/// The direction that undoes `dir`.
pub open spec fn opposite(dir: int) -> int {
    if dir == 0 {
        1
    } else if dir == 1 {
        0
    } else if dir == 2 {
        3
    } else {
        2
    }
}

/// Whether the neighbour of `idx` in direction `dir` is within `n` steps of a source.
pub open spec fn neighbor_within(
    tiles: Seq<TileType>,
    sources: Seq<usize>,
    idx: int,
    dir: int,
    n: nat,
) -> bool
    decreases n, 1nat,
{
    match spec_step(idx, dir) {
        Some(prev) => reach_within(tiles, sources, prev, n),
        None => false,
    }
}

/// Whether some source reaches tile `idx` in at most `n` steps.
pub open spec fn reach_within(tiles: Seq<TileType>, sources: Seq<usize>, idx: int, n: nat) -> bool
    decreases n, 0nat,
{
    if n == 0 {
        0 <= idx < NUM_TILES && sources.contains(idx as usize)
    } else {
        reach_within(tiles, sources, idx, (n - 1) as nat) || (passable(tiles, idx) && (
        neighbor_within(tiles, sources, idx, 0, (n - 1) as nat) || neighbor_within(
            tiles,
            sources,
            idx,
            1,
            (n - 1) as nat,
        ) || neighbor_within(tiles, sources, idx, 2, (n - 1) as nat) || neighbor_within(
            tiles,
            sources,
            idx,
            3,
            (n - 1) as nat,
        )))
    }
}

/// Whether `d` is what the distance field records for tile `idx`: the least
/// number of steps from a source when that is at most `cutoff`, and nothing
/// when no source reaches the tile within `cutoff` steps.
pub open spec fn is_distance(
    tiles: Seq<TileType>,
    sources: Seq<usize>,
    cutoff: nat,
    idx: int,
    d: Option<u32>,
) -> bool {
    match d {
        Some(k) => k <= cutoff && reach_within(tiles, sources, idx, k as nat) && (k > 0
            ==> !reach_within(tiles, sources, idx, (k - 1) as nat)),
        None => !reach_within(tiles, sources, idx, cutoff),
    }
}

/// The depth that orders recorded distances: an unreached tile lies deeper than any reached one.
pub open spec fn depth(d: Option<u32>) -> int {
    match d {
        Some(k) => k as int,
        None => u32::MAX + 1,
    }
}

/// A tile is within `n + 1` steps when it is within `n` steps, or can be
/// entered and has a neighbour within `n` steps.
pub proof fn lemma_reach_unfold(tiles: Seq<TileType>, sources: Seq<usize>, idx: int, n: nat)
    ensures
        reach_within(tiles, sources, idx, n + 1) == (reach_within(tiles, sources, idx, n) || (
        passable(tiles, idx) && exists|dir: int|
            0 <= dir < 4 && #[trigger] neighbor_within(tiles, sources, idx, dir, n))),
{
    assert(((n + 1) - 1) as nat == n);
    if reach_within(tiles, sources, idx, n + 1) && !reach_within(tiles, sources, idx, n) {
        let dir = if neighbor_within(tiles, sources, idx, 0, n) {
            0int
        } else if neighbor_within(tiles, sources, idx, 1, n) {
            1int
        } else if neighbor_within(tiles, sources, idx, 2, n) {
            2int
        } else {
            3int
        };
        assert(neighbor_within(tiles, sources, idx, dir, n));
    }
}

/// A tile within `n` steps is within any larger number of steps.
pub proof fn lemma_reach_monotone(
    tiles: Seq<TileType>,
    sources: Seq<usize>,
    idx: int,
    n: nat,
    m: nat,
)
    requires
        n <= m,
        reach_within(tiles, sources, idx, n),
    ensures
        reach_within(tiles, sources, idx, m),
    decreases m,
{
    if n < m {
        lemma_reach_monotone(tiles, sources, idx, n, (m - 1) as nat);
    }
}

/// Only grid cells are reached.
pub proof fn lemma_reach_on_grid(tiles: Seq<TileType>, sources: Seq<usize>, idx: int, n: nat)
    requires
        reach_within(tiles, sources, idx, n),
    ensures
        0 <= idx < NUM_TILES,
    decreases n,
{
    if n > 0 && reach_within(tiles, sources, idx, (n - 1) as nat) {
        lemma_reach_on_grid(tiles, sources, idx, (n - 1) as nat);
    }
}

/// Stepping back undoes a step.
pub proof fn lemma_step_symmetric(idx: int, dir: int)
    requires
        0 <= idx < NUM_TILES,
        0 <= dir < 4,
        spec_step(idx, dir).is_some(),
    ensures
        0 <= spec_step(idx, dir).unwrap() < NUM_TILES,
        spec_step(spec_step(idx, dir).unwrap(), opposite(dir)) == Some(idx),
{
}

/// One more step from a tile within `n` steps onto a passable neighbour.
pub proof fn lemma_reach_step(
    tiles: Seq<TileType>,
    sources: Seq<usize>,
    from: int,
    dir: int,
    n: nat,
)
    requires
        0 <= dir < 4,
        reach_within(tiles, sources, from, n),
        spec_step(from, dir).is_some(),
        passable(tiles, spec_step(from, dir).unwrap()),
    ensures
        reach_within(tiles, sources, spec_step(from, dir).unwrap(), n + 1),
{
    lemma_reach_on_grid(tiles, sources, from, n);
    lemma_step_symmetric(from, dir);
    let to = spec_step(from, dir).unwrap();
    assert(neighbor_within(tiles, sources, to, opposite(dir), n));
}

/// When nothing new is reached with one more step, nothing new is reached with any number more.
pub proof fn lemma_reach_saturated(
    tiles: Seq<TileType>,
    sources: Seq<usize>,
    d: nat,
    idx: int,
    n: nat,
)
    requires
        forall|t: int|
            0 <= t < NUM_TILES && #[trigger] reach_within(tiles, sources, t, d + 1)
                ==> reach_within(tiles, sources, t, d),
        reach_within(tiles, sources, idx, n),
    ensures
        reach_within(tiles, sources, idx, d),
    decreases n,
{
    lemma_reach_on_grid(tiles, sources, idx, n);
    if n <= d {
        lemma_reach_monotone(tiles, sources, idx, n, d);
    } else {
        let m = (n - 1) as nat;
        if reach_within(tiles, sources, idx, m) {
            lemma_reach_saturated(tiles, sources, d, idx, m);
        } else {
            let dir = if neighbor_within(tiles, sources, idx, 0, m) {
                0int
            } else if neighbor_within(tiles, sources, idx, 1, m) {
                1int
            } else if neighbor_within(tiles, sources, idx, 2, m) {
                2int
            } else {
                3int
            };
            assert(neighbor_within(tiles, sources, idx, dir, m));
            let prev = spec_step(idx, dir).unwrap();
            lemma_reach_saturated(tiles, sources, d, prev, m);
            assert(neighbor_within(tiles, sources, idx, dir, d));
            assert(reach_within(tiles, sources, idx, d + 1));
        }
    }
}

/// What holds of tile `t` between two waves: tiles up to depth `d` are
/// settled, and every other tile is further than `d` steps away.
pub open spec fn settled(
    tiles: Seq<TileType>,
    sources: Seq<usize>,
    dist: Seq<Option<u32>>,
    t: int,
    d: nat,
) -> bool {
    match dist[t] {
        Some(k) => is_distance(tiles, sources, d, t, Some(k)),
        None => !reach_within(tiles, sources, t, d),
    }
}

/// What holds of tile `t` while the wave at depth `d` spreads from the first
/// `done` tiles of `frontier`: an unsettled tile is further than `d` steps
/// away and no passable neighbour of those tiles.
pub open spec fn spreading(
    tiles: Seq<TileType>,
    sources: Seq<usize>,
    dist: Seq<Option<u32>>,
    frontier: Seq<usize>,
    done: int,
    dirs: int,
    t: int,
    d: nat,
) -> bool {
    match dist[t] {
        Some(k) => is_distance(tiles, sources, d + 1, t, Some(k)),
        None => !reach_within(tiles, sources, t, d) && (passable(tiles, t) ==> forall|
            j: int,
            dir: int,
        |
            0 <= j <= done && j < frontier.len() && 0 <= dir < 4 && (j < done || dir < dirs)
                ==> #[trigger] spec_step(frontier[j] as int, dir) != Some(t)),
    }
}

pub struct DistanceField {
    /// For each tile the number of steps from the nearest source, or nothing
    /// where no source reaches the tile within the cutoff.
    pub map: Vec<Option<u32>>,
}

impl DistanceField {
    pub open spec fn wf(&self) -> bool {
        self.map.len() == NUM_TILES
    }

    /// Whether this field holds the distances from `sources` over `tiles` up to `cutoff`.
    pub open spec fn measures(
        &self,
        tiles: Seq<TileType>,
        sources: Seq<usize>,
        cutoff: nat,
    ) -> bool {
        self.wf() && forall|t: int|
            0 <= t < NUM_TILES ==> is_distance(tiles, sources, cutoff, t, #[trigger] self.map[t])
    }

    /// Distances from the tiles `starts` over `map`, spreading in waves of
    /// one step until `max_depth` steps are made or no tile is left to reach.
    /// A source that names no grid cell is ignored.
    pub fn new(starts: &Vec<usize>, map: &TileGrid, max_depth: u32) -> (field: DistanceField)
        requires
            map.wf(),
        ensures
            field.measures(map.tiles@, starts@, max_depth as nat),
            field.map@ == spec_distances(map.tiles@, starts@, max_depth as nat),
    {
        let ghost tiles = map.tiles@;
        let ghost sources = starts@;
        let mut dist: Vec<Option<u32>> = vec![None; NUM_TILES];
        let mut frontier: Vec<usize> = Vec::new();
        let mut s: usize = 0;
        while s < starts.len()
            invariant
                s <= starts.len(),
                sources == starts@,
                dist.len() == NUM_TILES,
                forall|t: int|
                    0 <= t < NUM_TILES ==> (#[trigger] dist[t] == Some(0u32) || dist[t] == None::<
                        u32,
                    >),
                forall|t: int|
                    0 <= t < NUM_TILES ==> (#[trigger] dist[t] == Some(0u32) <==> exists|
                        k: int,
                    |
                        0 <= k < s && sources[k] == t),
                forall|j: int|
                    0 <= j < frontier.len() ==> #[trigger] frontier[j] < NUM_TILES
                        && dist[frontier[j] as int] == Some(0u32),
                forall|t: int|
                    0 <= t < NUM_TILES && #[trigger] dist[t] == Some(0u32) ==> frontier@.contains(
                        t as usize,
                    ),
            decreases starts.len() - s,
        {
            let start = starts[s];
            if start < NUM_TILES && dist[start].is_none() {
                let ghost before = frontier@;
                dist.set(start, Some(0));
                frontier.push(start);
                assert(frontier@[before.len() as int] == start);
                assert forall|t: int|
                    0 <= t < NUM_TILES && #[trigger] dist[t] == Some(0u32) implies frontier@.contains(
                    t as usize,
                ) by {
                    if t != start {
                        let j = choose|j: int| 0 <= j < before.len() && before[j] == t as usize;
                        assert(frontier@[j] == t as usize);
                    }
                }
            }
            s = s + 1;
        }
        proof {
            assert forall|t: int| 0 <= t < NUM_TILES implies #[trigger] settled(
                tiles,
                sources,
                dist@,
                t,
                0,
            ) by {
                if dist[t] == Some(0u32) {
                    let k = choose|k: int| 0 <= k < s && sources[k] == t;
                    assert(sources[k] == t as usize);
                } else {
                    if sources.contains(t as usize) {
                        let k = choose|k: int| 0 <= k < sources.len() && sources[k] == t as usize;
                        assert(0 <= k < s && sources[k] == t);
                    }
                }
            }
        }
        let mut d: u32 = 0;
        while d < max_depth && frontier.len() > 0
            invariant
                map.wf(),
                tiles == map.tiles@,
                dist.len() == NUM_TILES,
                d <= max_depth,
                forall|t: int|
                    0 <= t < NUM_TILES ==> #[trigger] settled(tiles, sources, dist@, t, d as nat),
                forall|j: int|
                    0 <= j < frontier.len() ==> #[trigger] frontier[j] < NUM_TILES
                        && dist[frontier[j] as int] == Some(d),
                forall|t: int|
                    0 <= t < NUM_TILES && #[trigger] dist[t] == Some(d) ==> frontier@.contains(
                        t as usize,
                    ),
            decreases max_depth - d,
        {
            let mut next: Vec<usize> = Vec::new();
            let mut i: usize = 0;
            proof {
                assert forall|t: int| 0 <= t < NUM_TILES implies #[trigger] spreading(
                    tiles,
                    sources,
                    dist@,
                    frontier@,
                    0,
                    0,
                    t,
                    d as nat,
                ) by {
                    assert(settled(tiles, sources, dist@, t, d as nat));
                }
                assert forall|t: int|
                    0 <= t < NUM_TILES && #[trigger] dist[t] == Some(
                        (d + 1) as u32,
                    ) implies next@.contains(t as usize) by {
                    assert(settled(tiles, sources, dist@, t, d as nat));
                }
            }
            while i < frontier.len()
                invariant
                    map.wf(),
                    tiles == map.tiles@,
                    dist.len() == NUM_TILES,
                    d < max_depth,
                    i <= frontier.len(),
                    forall|t: int|
                        0 <= t < NUM_TILES ==> #[trigger] spreading(
                            tiles,
                            sources,
                            dist@,
                            frontier@,
                            i as int,
                            0,
                            t,
                            d as nat,
                        ),
                    forall|j: int|
                        0 <= j < frontier.len() ==> #[trigger] frontier[j] < NUM_TILES
                            && dist[frontier[j] as int] == Some(d),
                    forall|t: int|
                        0 <= t < NUM_TILES && #[trigger] dist[t] == Some(d) ==> frontier@.contains(
                            t as usize,
                        ),
                    forall|j: int|
                        0 <= j < next.len() ==> #[trigger] next[j] < NUM_TILES && dist[next[j] as int]
                            == Some((d + 1) as u32),
                    forall|t: int|
                        0 <= t < NUM_TILES && #[trigger] dist[t] == Some((d + 1) as u32)
                            ==> next@.contains(t as usize),
                decreases frontier.len() - i,
            {
                let from = frontier[i];
                let location = map.index_to_point2d(from);
                let mut dir: u8 = 0;
                while dir < 4
                    invariant
                        map.wf(),
                        tiles == map.tiles@,
                        dist.len() == NUM_TILES,
                        d < max_depth,
                        i < frontier.len(),
                        dir <= 4,
                        from == frontier[i as int],
                        from < NUM_TILES,
                        location == spec_idx_point(from as int),
                        TileGrid::spec_in_bounds(location),
                        forall|t: int|
                            0 <= t < NUM_TILES ==> #[trigger] spreading(
                                tiles,
                                sources,
                                dist@,
                                frontier@,
                                i as int,
                                dir as int,
                                t,
                                d as nat,
                            ),
                        forall|j: int|
                            0 <= j < frontier.len() ==> #[trigger] frontier[j] < NUM_TILES
                                && dist[frontier[j] as int] == Some(d),
                        forall|t: int|
                            0 <= t < NUM_TILES && #[trigger] dist[t] == Some(d)
                                ==> frontier@.contains(t as usize),
                        forall|j: int|
                            0 <= j < next.len() ==> #[trigger] next[j] < NUM_TILES
                                && dist[next[j] as int] == Some((d + 1) as u32),
                        forall|t: int|
                            0 <= t < NUM_TILES && #[trigger] dist[t] == Some((d + 1) as u32)
                                ==> next@.contains(t as usize),
                    decreases 4 - dir,
                {
                    let ghost old_dist = dist@;
                    let ghost old_next = next@;
                    let exit = map.valid_exit(location, direction(dir));
                    let mut fresh: bool = false;
                    if let Some(to) = exit {
                        if dist[to].is_none() {
                            fresh = true;
                            dist.set(to, Some(d + 1));
                            next.push(to);
                        }
                    }
                    proof {
                        let step = spec_step(from as int, dir as int);
                        assert(spreading(
                            tiles,
                            sources,
                            old_dist,
                            frontier@,
                            i as int,
                            dir as int,
                            from as int,
                            d as nat,
                        ));
                        if fresh {
                            let to = exit.unwrap() as int;
                            assert(step == Some(to));
                            assert(next@[old_next.len() as int] == to);
                            assert(spreading(
                                tiles,
                                sources,
                                old_dist,
                                frontier@,
                                i as int,
                                dir as int,
                                to,
                                d as nat,
                            ));
                            lemma_reach_step(tiles, sources, from as int, dir as int, d as nat);
                        }
                        assert forall|t: int| 0 <= t < NUM_TILES implies #[trigger] spreading(
                            tiles,
                            sources,
                            dist@,
                            frontier@,
                            i as int,
                            dir as int + 1,
                            t,
                            d as nat,
                        ) by {
                            assert(spreading(
                                tiles,
                                sources,
                                old_dist,
                                frontier@,
                                i as int,
                                dir as int,
                                t,
                                d as nat,
                            ));
                            if dist[t].is_none() && passable(tiles, t) {
                                assert(old_dist[t].is_none());
                                assert(step != Some(t));
                            }
                        }
                        assert forall|j: int| 0 <= j < next.len() implies #[trigger] next[j]
                            < NUM_TILES && dist[next[j] as int] == Some((d + 1) as u32) by {
                            if j < old_next.len() {
                                assert(next[j] == old_next[j]);
                            }
                        }
                        assert forall|t: int|
                            0 <= t < NUM_TILES && #[trigger] dist[t] == Some(
                                (d + 1) as u32,
                            ) implies next@.contains(t as usize) by {
                            if old_dist[t] == Some((d + 1) as u32) {
                                let j = choose|j: int|
                                    0 <= j < old_next.len() && old_next[j] == t as usize;
                                assert(next@[j] == t as usize);
                            }
                        }
                    }
                    dir = dir + 1;
                }
                proof {
                    assert forall|t: int| 0 <= t < NUM_TILES implies #[trigger] spreading(
                        tiles,
                        sources,
                        dist@,
                        frontier@,
                        i as int + 1,
                        0,
                        t,
                        d as nat,
                    ) by {
                        assert(spreading(
                            tiles,
                            sources,
                            dist@,
                            frontier@,
                            i as int,
                            4,
                            t,
                            d as nat,
                        ));
                    }
                }
                i = i + 1;
            }
            let deeper: u32 = d + 1;
            proof {
                assert forall|t: int| 0 <= t < NUM_TILES implies #[trigger] settled(
                    tiles,
                    sources,
                    dist@,
                    t,
                    deeper as nat,
                ) by {
                    assert(spreading(
                        tiles,
                        sources,
                        dist@,
                        frontier@,
                        frontier.len() as int,
                        0,
                        t,
                        d as nat,
                    ));
                    lemma_reach_unfold(tiles, sources, t, d as nat);
                    if dist[t].is_none() && passable(tiles, t) {
                        assert forall|dir: int| 0 <= dir < 4 implies !neighbor_within(
                            tiles,
                            sources,
                            t,
                            dir,
                            d as nat,
                        ) by {
                            if neighbor_within(tiles, sources, t, dir, d as nat) {
                                let prev = spec_step(t, dir).unwrap();
                                lemma_step_symmetric(t, dir);
                                assert(spreading(
                                    tiles,
                                    sources,
                                    dist@,
                                    frontier@,
                                    frontier.len() as int,
                                    0,
                                    prev,
                                    d as nat,
                                ));
                                let k = dist[prev].unwrap();
                                if k == d {
                                    let j = choose|j: int|
                                        0 <= j < frontier.len() && frontier[j] == prev as usize;
                                    assert(spec_step(frontier[j] as int, opposite(dir)) == Some(t));
                                } else {
                                    lemma_reach_step(
                                        tiles,
                                        sources,
                                        prev,
                                        opposite(dir),
                                        k as nat,
                                    );
                                    lemma_reach_monotone(
                                        tiles,
                                        sources,
                                        t,
                                        (k + 1) as nat,
                                        d as nat,
                                    );
                                }
                            }
                        }
                    }
                }
            }
            frontier = next;
            d = deeper;
        }
        proof {
            assert forall|t: int| 0 <= t < NUM_TILES implies is_distance(
                tiles,
                sources,
                max_depth as nat,
                t,
                #[trigger] dist[t],
            ) by {
                assert(settled(tiles, sources, dist@, t, d as nat));
                if dist[t].is_none() && d < max_depth {
                    assert forall|u: int|
                        0 <= u < NUM_TILES && #[trigger] reach_within(
                            tiles,
                            sources,
                            u,
                            d as nat + 1,
                        ) implies reach_within(tiles, sources, u, d as nat) by {
                        lemma_reach_unfold(tiles, sources, u, d as nat);
                        if !reach_within(tiles, sources, u, d as nat) {
                            let dir = choose|dir: int|
                                0 <= dir < 4 && #[trigger] neighbor_within(
                                    tiles,
                                    sources,
                                    u,
                                    dir,
                                    d as nat,
                                );
                            let prev = spec_step(u, dir).unwrap();
                            lemma_step_symmetric(u, dir);
                            assert(settled(tiles, sources, dist@, prev, d as nat));
                            let k = dist[prev].unwrap();
                            assert(k != d) by {
                                if k == d {
                                    assert(frontier@.contains(prev as usize));
                                }
                            }
                            lemma_reach_step(tiles, sources, prev, opposite(dir), k as nat);
                            lemma_reach_monotone(tiles, sources, u, (k + 1) as nat, d as nat);
                        }
                    }
                    if reach_within(tiles, sources, t, max_depth as nat) {
                        lemma_reach_saturated(tiles, sources, d as nat, t, max_depth as nat);
                    }
                }
            }
        }
        let field = DistanceField { map: dist };
        proof {
            lemma_measures_distances(field, tiles, sources, max_depth as nat);
        }
        field
    }

    /// The exit of `position` that lies nearest to a source. Among exits at
    /// the same depth the first in the order left, right, up, down is taken;
    /// there is none only where `position` has no exit.
    pub fn find_lowest_exit(dm: &DistanceField, position: usize, map: &TileGrid) -> (r: Option<
        usize,
    >)
        requires
            dm.wf(),
            map.wf(),
            position < NUM_TILES,
        ensures
            match r {
                Some(next) => exists|k: int|
                    is_lowest_exit(spec_exits(map.tiles@, position as int), dm.map@, k)
                        && spec_exits(map.tiles@, position as int)[k] == next,
                None => spec_exits(map.tiles@, position as int).len() == 0,
            },
    {
        let exits = map.get_available_exits(position);
        if exits.len() == 0 {
            return None;
        }
        let mut best: usize = 0;
        let mut j: usize = 1;
        while j < exits.len()
            invariant
                dm.wf(),
                1 <= j <= exits.len(),
                best < j,
                forall|i: int| 0 <= i < exits.len() ==> #[trigger] exits[i] < NUM_TILES,
                forall|i: int|
                    0 <= i < j ==> depth(dm.map[exits[best as int] as int]) <= depth(
                        dm.map[#[trigger] exits[i] as int],
                    ),
                forall|i: int|
                    0 <= i < best ==> depth(dm.map[exits[best as int] as int]) < depth(
                        dm.map[#[trigger] exits[i] as int],
                    ),
            decreases exits.len() - j,
        {
            if nearer(dm.map[exits[j]], dm.map[exits[best]]) {
                best = j;
            }
            j = j + 1;
        }
        proof {
            assert(is_lowest_exit(exits@, dm.map@, best as int));
        }
        Some(exits[best])
    }

    /// The tile that lies furthest from the sources among those that were
    /// reached, the one with the highest index where several lie as far.
    /// There is none only where no tile was reached.
    pub fn most_distant(&self) -> (r: Option<usize>)
        requires
            self.wf(),
        ensures
            match r {
                Some(idx) => is_most_distant(self.map@, idx as int),
                None => forall|t: int| 0 <= t < NUM_TILES ==> (#[trigger] self.map[t]).is_none(),
            },
    {
        let mut best: Option<usize> = None;
        let mut t: usize = 0;
        while t < NUM_TILES
            invariant
                self.wf(),
                t <= NUM_TILES,
                match best {
                    Some(idx) => idx < t && self.map[idx as int].is_some() && (forall|u: int|
                        0 <= u < t && (#[trigger] self.map[u]).is_some() ==> self.map[u].unwrap()
                            <= self.map[idx as int].unwrap()) && (forall|u: int|
                        idx < u < t && (#[trigger] self.map[u]).is_some() ==> self.map[u].unwrap()
                            < self.map[idx as int].unwrap()),
                    None => forall|u: int| 0 <= u < t ==> (#[trigger] self.map[u]).is_none(),
                },
            decreases NUM_TILES - t,
        {
            if let Some(here) = self.map[t] {
                match best {
                    Some(idx) => {
                        if let Some(far) = self.map[idx] {
                            if here >= far {
                                best = Some(t);
                            }
                        }
                    },
                    None => {
                        best = Some(t);
                    },
                }
            }
            t = t + 1;
        }
        best
    }
}

/// Whether the recorded distance `a` is strictly less than `b`.
pub fn nearer(a: Option<u32>, b: Option<u32>) -> (r: bool)
    ensures
        r == (depth(a) < depth(b)),
{
    match a {
        Some(x) => match b {
            Some(y) => x < y,
            None => true,
        },
        None => false,
    }
}

/// Whether `exits[k]` is the first of the exits at the least depth.
pub open spec fn is_lowest_exit(exits: Seq<usize>, dist: Seq<Option<u32>>, k: int) -> bool {
    &&& 0 <= k < exits.len()
    &&& forall|j: int|
        0 <= j < exits.len() ==> depth(dist[exits[k] as int]) <= depth(
            dist[#[trigger] exits[j] as int],
        )
    &&& forall|j: int|
        0 <= j < k ==> depth(dist[exits[k] as int]) < depth(dist[#[trigger] exits[j] as int])
}

/// Whether `idx` is the last of the reached tiles at the greatest distance.
pub open spec fn is_most_distant(dist: Seq<Option<u32>>, idx: int) -> bool {
    &&& 0 <= idx < NUM_TILES
    &&& dist[idx].is_some()
    &&& forall|u: int|
        0 <= u < NUM_TILES && (#[trigger] dist[u]).is_some() ==> dist[u].unwrap()
            <= dist[idx].unwrap()
    &&& forall|u: int|
        idx < u < NUM_TILES && (#[trigger] dist[u]).is_some() ==> dist[u].unwrap()
            < dist[idx].unwrap()
}

/// Whether every tile of the grid can be entered.
pub open spec fn all_open(tiles: Seq<TileType>) -> bool {
    tiles.len() == NUM_TILES && forall|i: int|
        0 <= i < NUM_TILES ==> #[trigger] tiles[i] != TileType::Wall
}

/// The point of the neighbour that a step leads to.
pub proof fn lemma_step_point(idx: int, dir: int)
    requires
        0 <= idx < NUM_TILES,
        0 <= dir < 4,
        spec_step(idx, dir).is_some(),
    ensures
        0 <= spec_step(idx, dir).unwrap() < NUM_TILES,
        spec_idx_point(spec_step(idx, dir).unwrap()).x == spec_idx_point(idx).x + spec_direction(
            dir,
        ).x,
        spec_idx_point(spec_step(idx, dir).unwrap()).y == spec_idx_point(idx).y + spec_direction(
            dir,
        ).y,
{
}

/// A step changes the number of unit steps to any point by one.
pub proof fn lemma_step_manhattan(s: Point, idx: int, dir: int)
    requires
        0 <= idx < NUM_TILES,
        0 <= dir < 4,
        spec_step(idx, dir).is_some(),
    ensures
        s.manhattan(spec_idx_point(idx)) <= s.manhattan(
            spec_idx_point(spec_step(idx, dir).unwrap()),
        ) + 1,
{
    lemma_step_point(idx, dir);
}

/// The direction of a step from `p` that leads nearer to `s`.
pub open spec fn toward(s: Point, p: Point) -> int {
    if p.x > s.x {
        0
    } else if p.x < s.x {
        1
    } else if p.y > s.y {
        2
    } else {
        3
    }
}

/// From a tile other than `source` one step leads nearer to it.
pub proof fn lemma_step_toward(source: int, idx: int)
    requires
        0 <= source < NUM_TILES,
        0 <= idx < NUM_TILES,
        source != idx,
    ensures
        spec_step(idx, toward(spec_idx_point(source), spec_idx_point(idx))).is_some(),
        spec_idx_point(source).manhattan(
            spec_idx_point(
                spec_step(idx, toward(spec_idx_point(source), spec_idx_point(idx))).unwrap(),
            ),
        ) + 1 == spec_idx_point(source).manhattan(spec_idx_point(idx)),
{
    let s = spec_idx_point(source);
    let p = spec_idx_point(idx);
    let dir = toward(s, p);
    assert(s != p);
    assert(spec_step(idx, dir).is_some());
    lemma_step_point(idx, dir);
}

/// On a grid without walls a single source reaches a tile within `n` steps
/// exactly when the two are at most `n` unit steps apart.
pub proof fn lemma_open_grid_reach(tiles: Seq<TileType>, source: usize, idx: int, n: nat)
    requires
        all_open(tiles),
        source < NUM_TILES,
        0 <= idx < NUM_TILES,
    ensures
        reach_within(tiles, seq![source], idx, n) <==> spec_idx_point(source as int).manhattan(
            spec_idx_point(idx),
        ) <= n,
    decreases n,
{
    let sources = seq![source];
    let s = spec_idx_point(source as int);
    let apart = s.manhattan(spec_idx_point(idx));
    assert(sources[0] == source);
    assert(sources.contains(idx as usize) <==> idx == source);
    if n == 0 {
        assert(apart == 0 <==> idx == source);
    } else {
        let m = (n - 1) as nat;
        lemma_reach_unfold(tiles, sources, idx, m);
        lemma_open_grid_reach(tiles, source, idx, m);
        if reach_within(tiles, sources, idx, n) && !reach_within(tiles, sources, idx, m) {
            let dir = choose|dir: int|
                0 <= dir < 4 && #[trigger] neighbor_within(tiles, sources, idx, dir, m);
            lemma_step_manhattan(s, idx, dir);
            lemma_open_grid_reach(tiles, source, spec_step(idx, dir).unwrap(), m);
        }
        if apart == n {
            assert(apart == 0 <==> idx == source);
            lemma_step_toward(source as int, idx);
            let dir = toward(s, spec_idx_point(idx));
            lemma_step_point(idx, dir);
            let prev = spec_step(idx, dir).unwrap();
            lemma_open_grid_reach(tiles, source, prev, m);
            assert(neighbor_within(tiles, sources, idx, dir, m));
        }
    }
}

/// On a grid without walls the distance field of a single source holds, for
/// every tile, the number of unit steps between the source and the tile where
/// that is within the cutoff, and nothing beyond it.
pub proof fn lemma_open_grid_distances(
    field: DistanceField,
    tiles: Seq<TileType>,
    source: usize,
    cutoff: u32,
    idx: int,
)
    requires
        all_open(tiles),
        source < NUM_TILES,
        0 <= idx < NUM_TILES,
        field.measures(tiles, seq![source], cutoff as nat),
    ensures
        field.map[idx] == open_grid_distance(source as int, idx, cutoff),
{
    let apart = spec_idx_point(source as int).manhattan(spec_idx_point(idx));
    assert(is_distance(tiles, seq![source], cutoff as nat, idx, field.map[idx]));
    lemma_open_grid_reach(tiles, source, idx, cutoff as nat);
    match field.map[idx] {
        Some(k) => {
            lemma_open_grid_reach(tiles, source, idx, k as nat);
            if k > 0 {
                lemma_open_grid_reach(tiles, source, idx, (k - 1) as nat);
            }
        },
        None => {},
    }
}

/// On a grid without walls the distance of a tile from a single source is
/// the number of unit steps between the two where that is within the
/// cutoff, and nothing beyond it.
pub proof fn lemma_open_grid_spec_distance(
    tiles: Seq<TileType>,
    source: usize,
    cutoff: u32,
    idx: int,
)
    requires
        all_open(tiles),
        source < NUM_TILES,
        0 <= idx < NUM_TILES,
    ensures
        spec_distances(tiles, seq![source], cutoff as nat)[idx] == open_grid_distance(
            source as int,
            idx,
            cutoff,
        ),
{
    let apart = spec_idx_point(source as int).manhattan(spec_idx_point(idx));
    let expected = open_grid_distance(source as int, idx, cutoff);
    lemma_open_grid_reach(tiles, source, idx, cutoff as nat);
    if apart <= cutoff {
        lemma_open_grid_reach(tiles, source, idx, apart as nat);
        if apart > 0 {
            lemma_open_grid_reach(tiles, source, idx, (apart - 1) as nat);
        }
    }
    assert(is_distance(tiles, seq![source], cutoff as nat, idx, expected));
    lemma_distance_unique(
        tiles,
        seq![source],
        cutoff as nat,
        idx,
        expected,
        spec_distance(tiles, seq![source], cutoff as nat, idx),
    );
}

/// The number of unit steps between two tiles where it is within `cutoff`.
pub open spec fn open_grid_distance(source: int, idx: int, cutoff: u32) -> Option<u32> {
    let apart = spec_idx_point(source).manhattan(spec_idx_point(idx));
    if apart <= cutoff {
        Some(apart as u32)
    } else {
        None
    }
}

/// A tile has one distance: two values that both are the distance of `idx` are equal.
pub proof fn lemma_distance_unique(
    tiles: Seq<TileType>,
    sources: Seq<usize>,
    cutoff: nat,
    idx: int,
    a: Option<u32>,
    b: Option<u32>,
)
    requires
        is_distance(tiles, sources, cutoff, idx, a),
        is_distance(tiles, sources, cutoff, idx, b),
    ensures
        a == b,
{
    match (a, b) {
        (Some(x), Some(y)) => {
            if x < y {
                lemma_reach_monotone(tiles, sources, idx, x as nat, (y - 1) as nat);
            } else if y < x {
                lemma_reach_monotone(tiles, sources, idx, y as nat, (x - 1) as nat);
            }
        },
        (Some(x), None) => {
            lemma_reach_monotone(tiles, sources, idx, x as nat, cutoff);
        },
        (None, Some(y)) => {
            lemma_reach_monotone(tiles, sources, idx, y as nat, cutoff);
        },
        (None, None) => {},
    }
}

/// The distance of tile `idx` from `sources` over `tiles` up to `cutoff`.
pub open spec fn spec_distance(
    tiles: Seq<TileType>,
    sources: Seq<usize>,
    cutoff: nat,
    idx: int,
) -> Option<u32> {
    choose|d: Option<u32>| is_distance(tiles, sources, cutoff, idx, d)
}

/// The distances of all tiles from `sources` over `tiles` up to `cutoff`.
pub open spec fn spec_distances(tiles: Seq<TileType>, sources: Seq<usize>, cutoff: nat) -> Seq<
    Option<u32>,
> {
    Seq::new(NUM_TILES as nat, |t: int| spec_distance(tiles, sources, cutoff, t))
}

/// A field that measures the distances holds exactly `spec_distances`.
pub proof fn lemma_measures_distances(
    field: DistanceField,
    tiles: Seq<TileType>,
    sources: Seq<usize>,
    cutoff: nat,
)
    requires
        field.measures(tiles, sources, cutoff),
    ensures
        field.map@ == spec_distances(tiles, sources, cutoff),
{
    assert forall|t: int| 0 <= t < NUM_TILES implies field.map[t] == spec_distance(
        tiles,
        sources,
        cutoff,
        t,
    ) by {
        assert(is_distance(tiles, sources, cutoff, t, field.map[t]));
        lemma_distance_unique(
            tiles,
            sources,
            cutoff,
            t,
            field.map[t],
            spec_distance(tiles, sources, cutoff, t),
        );
    }
    assert(field.map@ =~= spec_distances(tiles, sources, cutoff));
}

/// A source that is a grid cell has distance zero.
pub proof fn lemma_source_distance(
    tiles: Seq<TileType>,
    sources: Seq<usize>,
    cutoff: nat,
    k: int,
    d: Option<u32>,
)
    requires
        0 <= k < sources.len(),
        sources[k] < NUM_TILES,
        is_distance(tiles, sources, cutoff, sources[k] as int, d),
    ensures
        d == Some(0u32),
{
    assert(reach_within(tiles, sources, sources[k] as int, 0));
    lemma_reach_monotone(tiles, sources, sources[k] as int, 0, cutoff);
    if d.is_some() && d.unwrap() > 0 {
        lemma_reach_monotone(tiles, sources, sources[k] as int, 0, (d.unwrap() - 1) as nat);
    }
}

/// A tile that is reached is a source or can be entered.
pub proof fn lemma_reached_is_open(tiles: Seq<TileType>, sources: Seq<usize>, idx: int, n: nat)
    requires
        reach_within(tiles, sources, idx, n),
    ensures
        sources.contains(idx as usize) || passable(tiles, idx),
    decreases n,
{
    if n > 0 && reach_within(tiles, sources, idx, (n - 1) as nat) {
        lemma_reached_is_open(tiles, sources, idx, (n - 1) as nat);
    }
}

/// What is within reach of a tile that is within reach is within reach:
/// the steps add up.
pub proof fn lemma_reach_chain(
    tiles: Seq<TileType>,
    sources: Seq<usize>,
    via: int,
    idx: int,
    n: nat,
    m: nat,
)
    requires
        reach_within(tiles, sources, via, n),
        reach_within(tiles, seq![via as usize], idx, m),
    ensures
        reach_within(tiles, sources, idx, n + m),
    decreases m,
{
    let from = seq![via as usize];
    lemma_reach_on_grid(tiles, sources, via, n);
    assert(from[0] == via as usize);
    if m == 0 {
        assert(idx == via);
    } else {
        let k = (m - 1) as nat;
        lemma_reach_unfold(tiles, from, idx, k);
        lemma_reach_unfold(tiles, sources, idx, n + k);
        if reach_within(tiles, from, idx, k) {
            lemma_reach_chain(tiles, sources, via, idx, n, k);
        } else {
            let dir = choose|dir: int|
                0 <= dir < 4 && #[trigger] neighbor_within(tiles, from, idx, dir, k);
            lemma_reach_chain(tiles, sources, via, spec_step(idx, dir).unwrap(), n, k);
            assert(neighbor_within(tiles, sources, idx, dir, n + k));
        }
    }
}

/// The way back: a tile that can be entered is within reach of what is
/// within its reach, in as many steps.
pub proof fn lemma_reach_back(tiles: Seq<TileType>, from: int, idx: int, n: nat)
    requires
        passable(tiles, from),
        reach_within(tiles, seq![from as usize], idx, n),
    ensures
        reach_within(tiles, seq![idx as usize], from, n),
    decreases n,
{
    let there = seq![from as usize];
    let back = seq![idx as usize];
    assert(there[0] == from as usize);
    lemma_reach_on_grid(tiles, there, idx, n);
    assert(back[0] == idx as usize);
    if n == 0 {
        assert(idx == from);
    } else {
        let m = (n - 1) as nat;
        lemma_reach_unfold(tiles, there, idx, m);
        if reach_within(tiles, there, idx, m) {
            lemma_reach_back(tiles, from, idx, m);
            lemma_reach_monotone(tiles, back, from, m, n);
        } else {
            let dir = choose|dir: int|
                0 <= dir < 4 && #[trigger] neighbor_within(tiles, there, idx, dir, m);
            let prev = spec_step(idx, dir).unwrap();
            lemma_reach_back(tiles, from, prev, m);
            lemma_reached_is_open(tiles, there, prev, m);
            assert(passable(tiles, prev));
            assert(reach_within(tiles, back, idx, 0));
            lemma_reach_step(tiles, back, idx, dir, 0);
            lemma_reach_chain(tiles, back, prev, from, 1, m);
        }
    }
}

/// More floor takes nothing out of reach: what is within reach on a grid
/// is within reach on every grid that has its walls among those of the first.
pub proof fn lemma_reach_fewer_walls(
    a: Seq<TileType>,
    b: Seq<TileType>,
    sources: Seq<usize>,
    idx: int,
    n: nat,
)
    requires
        a.len() == NUM_TILES,
        b.len() == NUM_TILES,
        forall|i: int| 0 <= i < NUM_TILES && #[trigger] b[i] == TileType::Wall ==> a[i] == TileType::Wall,
        reach_within(a, sources, idx, n),
    ensures
        reach_within(b, sources, idx, n),
    decreases n,
{
    if n > 0 {
        let m = (n - 1) as nat;
        lemma_reach_unfold(a, sources, idx, m);
        lemma_reach_unfold(b, sources, idx, m);
        if reach_within(a, sources, idx, m) {
            lemma_reach_fewer_walls(a, b, sources, idx, m);
        } else {
            let dir = choose|dir: int|
                0 <= dir < 4 && #[trigger] neighbor_within(a, sources, idx, dir, m);
            lemma_reach_fewer_walls(a, b, sources, spec_step(idx, dir).unwrap(), m);
            assert(neighbor_within(b, sources, idx, dir, m));
            assert(b[idx] == TileType::Wall ==> a[idx] == TileType::Wall);
        }
    }
}

/// Reachability looks at the tiles only to tell walls from the rest: two
/// grids with walls in the same places have the same reachable tiles.
pub proof fn lemma_reach_same_walls(
    a: Seq<TileType>,
    b: Seq<TileType>,
    sources: Seq<usize>,
    idx: int,
    n: nat,
)
    requires
        a.len() == NUM_TILES,
        b.len() == NUM_TILES,
        forall|i: int|
            0 <= i < NUM_TILES ==> (#[trigger] a[i] == TileType::Wall <==> b[i] == TileType::Wall),
    ensures
        reach_within(a, sources, idx, n) == reach_within(b, sources, idx, n),
    decreases n,
{
    if n > 0 {
        let m = (n - 1) as nat;
        lemma_reach_unfold(a, sources, idx, m);
        lemma_reach_unfold(b, sources, idx, m);
        lemma_reach_same_walls(a, b, sources, idx, m);
        assert forall|dir: int| 0 <= dir < 4 implies neighbor_within(a, sources, idx, dir, m)
            == neighbor_within(b, sources, idx, dir, m) by {
            if spec_step(idx, dir).is_some() {
                lemma_reach_same_walls(a, b, sources, spec_step(idx, dir).unwrap(), m);
            }
        }
        if 0 <= idx < NUM_TILES {
            assert(a[idx] == TileType::Wall <==> b[idx] == TileType::Wall);
        }
    }
}

} // verus!
