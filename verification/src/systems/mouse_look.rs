use crate::cmtp::{PlayerAction, PlayerView};
use crate::engine::entity::Indexes;
use crate::engine::game::{World, WorldView};
use vstd::prelude::*;

verus! {

/// The entity with indexes `ix` can be seen at `(x, y)`.
pub open spec fn visible_at(w: WorldView, ix: Indexes, x: int, y: int) -> bool {
    &&& ix.symbol is Some
    &&& ix.map_object is Some
    &&& w.symbols[ix.symbol.unwrap() as int].x == x
    &&& w.symbols[ix.symbol.unwrap() as int].y == y
    &&& !w.map_objects[ix.map_object.unwrap() as int].hidden
    &&& w.cell_at(x, y).in_fov
}

/// The ids of the entities among the first `n` that can be seen at `(x, y)`.
pub open spec fn seen_at(w: WorldView, n: int, x: int, y: int) -> Seq<u32>
    decreases n,
{
    if n <= 0 {
        seq![]
    } else if visible_at(w, w.entities[n - 1].1, x, y) {
        seen_at(w, n - 1, x, y).push(w.entities[n - 1].0)
    } else {
        seen_at(w, n - 1, x, y)
    }
}

/// The look-at slots filled with `ids`, the rest empty.
pub open spec fn filled(slots: int, ids: Seq<u32>) -> Seq<Option<u32>> {
    Seq::new(slots as nat, |i: int| if i < ids.len() { Some(ids[i]) } else { None })
}

/// The world after a frame of the mouse-look system: looking at a tile
/// remembers the visible objects there, as many as there are slots.
pub open spec fn mouse_look_step(w: WorldView) -> WorldView {
    match w.player.action {
        PlayerAction::LookAt(x, y) => WorldView {
            player: PlayerView {
                look_at: filled(
                    w.player.look_at.len() as int,
                    seen_at(w, w.entities.len() as int, x as int, y as int),
                ),
                ..w.player
            },
            ..w
        },
        _ => w,
    }
}

/// Looking needs the map once there is something on it.
pub open spec fn mouse_look_ready(w: WorldView) -> bool {
    (w.player.action is LookAt && exists|id: u32| w.is_map_obj(id)) ==> w.map_ready()
}

pub fn update(world: &mut World)
    requires
        old(world)@.wf(),
        mouse_look_ready(old(world)@),
    ensures
        final(world)@.wf(),
        final(world)@ == mouse_look_step(old(world)@),
{
    let ghost pre = world@;
    if let PlayerAction::LookAt(lx, ly) = world.player.action {
        let mut ids: Vec<u32> = Vec::new();
        let mut i: usize = 0;
        while i < world.entity_indexes.len()
            invariant
                world@ == pre,
                pre.wf(),
                mouse_look_ready(pre),
                pre.player.action == PlayerAction::LookAt(lx, ly),
                i <= pre.entities.len(),
                ids@ == seen_at(pre, i as int, lx as int, ly as int),
            decreases pre.entities.len() - i,
        {
            let (id, ix) = world.entity_indexes[i];
            proof {
                assert(pre.indexes_wf(pre.entities[i as int].1));
                pre.lemma_indexes_at(i as int);
            }
            match (ix.symbol, ix.map_object) {
                (Some(s), Some(mo)) => {
                    proof {
                        assert(pre.is_map_obj(id));
                        pre.lemma_symbol_on_grid(s as int);
                    }
                    let x = world.symbols[s].x;
                    let y = world.symbols[s].y;
                    let in_fov = world.map[(y * crate::cfg::MAP_WIDTH + x) as usize].in_fov;
                    if x == lx && y == ly && !world.map_objects[mo].hidden && in_fov {
                        ids.push(id);
                    }
                },
                _ => {},
            }
            i = i + 1;
        }
        let n = world.player.look_at.len();
        let mut k: usize = 0;
        while k < n
            invariant
                pre.wf(),
                n == pre.player.look_at.len(),
                k <= n,
                world@ == (WorldView {
                    player: PlayerView { look_at: world@.player.look_at, ..pre.player },
                    ..pre
                }),
                world@.player.look_at.len() == n,
                forall|j: int| 0 <= j < k ==> #[trigger] world@.player.look_at[j] == filled(n as int, ids@)[j],
            decreases n - k,
        {
            let v = if k < ids.len() {
                Some(ids[k])
            } else {
                None
            };
            world.player.look_at.set(k, v);
            k = k + 1;
        }
        proof {
            assert(world@.player.look_at =~= filled(n as int, ids@));
        }
    }
}

/// Whether a frame of the mouse-look system can run.
pub fn is_ready(world: &World) -> (r: bool)
    requires
        world@.wf(),
    ensures
        r == mouse_look_ready(world@),
{
    let looking = match world.player.action {
        PlayerAction::LookAt(..) => true,
        _ => false,
    };
    if !looking || world.map.len() == (crate::cfg::MAP_WIDTH * crate::cfg::MAP_HEIGHT) as usize {
        return true;
    }
    let ghost w = world@;
    let mut i: usize = 0;
    while i < world.entity_indexes.len()
        invariant
            w == world@,
            w.wf(),
            !w.map_ready(),
            w.player.action is LookAt,
            i <= w.entities.len(),
            forall|k: int| 0 <= k < i ==> !((#[trigger] w.entities[k]).1.symbol is Some && w.entities[k].1.map_object is Some),
        decreases w.entities.len() - i,
    {
        let ix = world.entity_indexes[i].1;
        if ix.symbol.is_some() && ix.map_object.is_some() {
            proof {
                w.lemma_indexes_at(i as int);
                assert(w.is_map_obj(w.entities[i as int].0));
                assert(exists|id: u32| w.is_map_obj(id));
                assert(!w.map_ready());
            }
            return false;
        }
        i = i + 1;
    }
    proof {
        assert forall|id: u32| !w.is_map_obj(id) by {
            if w.is_map_obj(id) {
                w.lemma_wf_indexes(id);
                let p = w.pos_of(id);
                assert(w.entities[p].1.symbol is Some);
            }
        }
    }
    true
}

} // verus!
