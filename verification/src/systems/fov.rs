//! The player's field of view: what the map tells the field-of-view
//! computation, and what the map keeps of its result.
use crate::cmtp::{MapCell, PlayerView};
use crate::engine::game::{map_index, map_size, World, WorldView};
use vstd::prelude::*;

verus! {

/// For each cell of the map, in order, whether light passes through it and
/// whether it can be walked on.
pub open spec fn spec_fov_cells(map: Seq<MapCell>) -> Seq<(bool, bool)> {
    map.map_values(|c: MapCell| (!c.block_sight, !c.block))
}

/// What the field-of-view map is made of: for each cell, row after row,
/// whether it is transparent and whether it is walkable.
pub fn fov_cells(world: &World) -> (r: Vec<(bool, bool)>)
    ensures
        r@ == spec_fov_cells(world@.map),
{
    let mut r: Vec<(bool, bool)> = Vec::new();
    let mut i: usize = 0;
    while i < world.map.len()
        invariant
            i <= world@.map.len(),
            r@ == spec_fov_cells(world@.map.subrange(0, i as int)),
        decreases world@.map.len() - i,
    {
        let c = world.map[i];
        r.push((!c.block_sight, !c.block));
        i = i + 1;
        proof {
            assert(spec_fov_cells(world@.map.subrange(0, i as int)) =~= spec_fov_cells(
                world@.map.subrange(0, i as int - 1),
            ).push((!c.block_sight, !c.block)));
        }
    }
    proof {
        assert(world@.map.subrange(0, world@.map.len() as int) =~= world@.map);
    }
    r
}

/// The player's position.
pub open spec fn player_position(w: WorldView) -> (i32, i32) {
    let s = w.sym_of(w.player.id);
    (s.x, s.y)
}

/// The player has moved since the field of view was last computed.
pub open spec fn spec_needs_fov(w: WorldView) -> bool {
    w.player.previous_player_position != player_position(w)
}

/// Whether the field of view is to be computed again: the player moved.
pub fn needs_fov(world: &World) -> (r: bool)
    requires
        world@.wf(),
        world@.is_character(world@.player.id),
    ensures
        r == spec_needs_fov(world@),
{
    let s = world.player_sym();
    let (px, py) = world.player.previous_player_position;
    px != s.x || py != s.y
}

/// The map with the cells in view lit, and every cell in view explored.
pub open spec fn lit(map: Seq<MapCell>, visible: Seq<bool>) -> Seq<MapCell> {
    Seq::new(
        map.len(),
        |i: int| MapCell { in_fov: visible[i], explored: map[i].explored || visible[i], ..map[i] },
    )
}

/// The world once the field of view `visible` (one flag per cell, row after
/// row) is computed from where the player stands.
pub open spec fn fov_applied(w: WorldView, visible: Seq<bool>) -> WorldView {
    WorldView {
        map: lit(w.map, visible),
        player: PlayerView { previous_player_position: player_position(w), ..w.player },
        ..w
    }
}

/// Keeps in the map the field of view computed from where the player
/// stands: the cells in view are lit and explored, the others are dark.
pub fn apply_fov(world: &mut World, visible: &Vec<bool>)
    requires
        old(world)@.wf(),
        old(world)@.is_character(old(world)@.player.id),
        visible@.len() == old(world)@.map.len(),
    ensures
        final(world)@.wf(),
        final(world)@ == fov_applied(old(world)@, visible@),
{
    let ghost pre = world@;
    let s = world.player_sym();
    let (player_x, player_y) = (s.x, s.y);
    let mut i: usize = 0;
    while i < world.map.len()
        invariant
            i <= world@.map.len(),
            world@.map.len() == pre.map.len(),
            visible@.len() == pre.map.len(),
            world@ == (WorldView { map: world@.map, ..pre }),
            forall|j: int| 0 <= j < i ==> #[trigger] world@.map[j] == lit(pre.map, visible@)[j],
            forall|j: int| i <= j < pre.map.len() ==> #[trigger] world@.map[j] == pre.map[j],
        decreases pre.map.len() - i,
    {
        let mut c = world.map[i];
        let in_fov = visible[i];
        c.in_fov = in_fov;
        if in_fov {
            c.explored = true;
        }
        world.map.set(i, c);
        i = i + 1;
    }
    world.player.previous_player_position = (player_x, player_y);
    proof {
        assert(world@.map =~= lit(pre.map, visible@));
        assert(world@.player.look_at =~= pre.player.look_at);
        assert forall|j: int| 0 <= j < world@.entities.len() implies world@.indexes_wf(#[trigger] world@.entities[j].1) by {
            assert(pre.indexes_wf(pre.entities[j].1));
        }
    }
}

/// Once explored, a cell stays explored; a cell is lit exactly when it is
/// in view; and nothing else about the map changes.
pub proof fn law_explored_kept(map: Seq<MapCell>, visible: Seq<bool>, i: int)
    requires
        0 <= i < map.len(),
    ensures
        map[i].explored ==> lit(map, visible)[i].explored,
        lit(map, visible)[i].in_fov == visible[i],
        visible[i] ==> lit(map, visible)[i].explored,
        lit(map, visible)[i].block == map[i].block,
        lit(map, visible)[i].block_sight == map[i].block_sight,
        lit(map, visible).len() == map.len(),
{
}

} // verus!
