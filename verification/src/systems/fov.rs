//! Visibility refresh: fields of view that are out of date are worked out anew.

use vstd::prelude::*;
use crate::components::{no_tiles, ComponentsView, FieldOfViewView};
use crate::map::{TileGrid, TileType};
use crate::systems::movement::{reveal_tiles, seen_with};
use crate::visibility::{field_of_view_set, spec_field_of_view};
use crate::world::{World, WorldView};

verus! {

/// Whether the field of view of a row is to be worked out anew: the entity
/// has a position and a field of view that is out of date.
pub open spec fn stale(row: Option<ComponentsView>) -> bool {
    row.is_some() && row.unwrap().position.is_some() && row.unwrap().field_of_view.is_some()
        && row.unwrap().field_of_view.unwrap().is_dirty
}

/// The tiles that an entity with the given components sees: those that the
/// grid lets it see from its position, and none where it stands off the grid.
pub open spec fn sees(tiles: Seq<TileType>, c: ComponentsView) -> Seq<bool> {
    if TileGrid::spec_in_bounds(c.position.unwrap()) {
        spec_field_of_view(tiles, c.position.unwrap(), c.field_of_view.unwrap().radius)
    } else {
        no_tiles()
    }
}

/// A row after the refresh: a stale field of view holds what the entity
/// sees and is up to date, and nothing else has changed.
pub open spec fn spec_refresh(tiles: Seq<TileType>, row: Option<ComponentsView>) -> Option<
    ComponentsView,
> {
    if stale(row) {
        let c = row.unwrap();
        Some(
            ComponentsView {
                field_of_view: Some(
                    FieldOfViewView {
                        visible_tiles: sees(tiles, c),
                        radius: c.field_of_view.unwrap().radius,
                        is_dirty: false,
                    },
                ),
                ..c
            },
        )
    } else {
        row
    }
}

/// The tiles seen after the first `n` rows are refreshed: what a player
/// whose field of view was stale sees joins what was seen before.
pub open spec fn spec_seen_upto(
    w: WorldView,
    tiles: Seq<TileType>,
    revealed: Seq<bool>,
    n: int,
) -> Seq<bool>
    decreases n,
{
    if n <= 0 {
        revealed
    } else {
        let before = spec_seen_upto(w, tiles, revealed, n - 1);
        if stale(w.entries[n - 1]) && w.entries[n - 1].unwrap().player.is_some() {
            seen_with(before, sees(tiles, w.entries[n - 1].unwrap()))
        } else {
            before
        }
    }
}

/// Works out anew every field of view that is out of date, and lets the
/// tiles that the player then sees count as seen.
pub fn fov(ecs: &mut World, map: &mut TileGrid)
    requires
        old(ecs).wf(),
        old(map).wf(),
    ensures
        final(ecs).wf(),
        final(map).wf(),
        final(map).tiles == old(map).tiles,
        final(ecs)@ == (WorldView {
            entries: Seq::new(
                old(ecs)@.entries.len(),
                |i: int| spec_refresh(old(map).tiles@, old(ecs)@.entries[i]),
            ),
            ..old(ecs)@
        }),
        final(map).revealed_tiles@ == spec_seen_upto(
            old(ecs)@,
            old(map).tiles@,
            old(map).revealed_tiles@,
            old(ecs)@.entries.len() as int,
        ),
{
    let mut i: usize = 0;
    while i < ecs.entries.len()
        invariant
            ecs.wf(),
            map.wf(),
            map.tiles == old(map).tiles,
            i <= ecs.entries.len(),
            ecs.entries.len() == old(ecs).entries.len(),
            ecs.wants_to_move == old(ecs).wants_to_move,
            ecs.wants_to_attack == old(ecs).wants_to_attack,
            ecs.activations == old(ecs).activations,
            forall|j: int|
                0 <= j < ecs.entries.len() ==> #[trigger] ecs@.entries[j] == (if j < i {
                    spec_refresh(map.tiles@, old(ecs)@.entries[j])
                } else {
                    old(ecs)@.entries[j]
                }),
            map.revealed_tiles@ == spec_seen_upto(
                old(ecs)@,
                map.tiles@,
                old(map).revealed_tiles@,
                i as int,
            ),
        decreases ecs.entries.len() - i,
    {
        let ghost before = ecs@;
        assert(before.entries[i as int] == old(ecs)@.entries[i as int]);
        let todo = match &ecs.entries[i] {
            Some(c) => match (&c.field_of_view, c.position) {
                (Some(fov), Some(pos)) => if fov.is_dirty {
                    Some((pos, fov.radius, c.player.is_some()))
                } else {
                    None
                },
                _ => None,
            },
            None => None,
        };
        if let Some((pos, radius, is_player)) = todo {
            let visible = if map.in_bounds(pos) {
                field_of_view_set(pos, radius, map)
            } else {
                let none = vec![false; crate::map::NUM_TILES];
                assert(none@ =~= no_tiles());
                none
            };
            if is_player {
                reveal_tiles(map, &visible);
            }
            match &mut ecs.entries[i] {
                Some(c) => {
                    match &mut c.field_of_view {
                        Some(fov) => {
                            fov.visible_tiles = visible;
                            fov.is_dirty = false;
                        },
                        None => {},
                    }
                },
                None => {},
            }
        }
        proof {
            assert(ecs@.entries[i as int] == spec_refresh(map.tiles@, old(ecs)@.entries[i as int]));
            assert forall|j: int| 0 <= j < ecs.entries.len() implies #[trigger] ecs@.entries[j] == (
            if j < i + 1 {
                spec_refresh(map.tiles@, old(ecs)@.entries[j])
            } else {
                old(ecs)@.entries[j]
            }) by {
                if j != i {
                    assert(ecs@.entries[j] == before.entries[j]);
                }
            }
        }
        i = i + 1;
    }
    assert(ecs@.entries =~= Seq::new(
        old(ecs)@.entries.len(),
        |i: int| spec_refresh(old(map).tiles@, old(ecs)@.entries[i]),
    ));
}

} // verus!
