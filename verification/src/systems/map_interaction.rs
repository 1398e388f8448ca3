use crate::cfg;
use crate::cmtp::{AiOption, DeathCallback, OwnedItem, PlayerState, PlayerView, Slot};
use crate::engine::entity::{BuilderView, Indexes};
use crate::engine::game::{self, first, is_first, lemma_first, new_entity, World, WorldView};
use vstd::prelude::*;

verus! {

/// The world the next level starts from: the ids go on, the player keeps its
/// progress, and nothing is in it yet.
pub open spec fn base_world(pre: WorldView) -> WorldView {
    WorldView {
        id_count: pre.id_count,
        entities: seq![],
        player: PlayerView {
            looking_at: None,
            look_at: Seq::new(pre.player.look_at.len(), |i: int| None::<u32>),
            ..pre.player
        },
        must_be_destroyed: false,
        symbols: seq![],
        map: seq![],
        map_objects: seq![],
        characters: seq![],
        ais: seq![],
        items: seq![],
        equipments: seq![],
        ammos: seq![],
        log: seq![],
        dialogs: seq![],
    }
}

/// The player's entity as it is carried to the next level, without a mind.
pub open spec fn player_copy(pre: WorldView) -> BuilderView {
    let pid = pre.player.id;
    BuilderView {
        symbol: Some(pre.sym_of(pid)),
        map_object: Some(pre.mobj_of(pid)),
        character: Some(pre.char_of(pid)),
        ai: Some(AiOption { option: None }),
        ..BuilderView::empty()
    }
}

/// The world with the player carried over, if it exists.
pub open spec fn with_player(pre: WorldView) -> WorldView {
    if pre.has(pre.player.id) {
        let w = player_copy(pre).stored_in(base_world(pre));
        WorldView { player: PlayerView { id: w.id_count, ..w.player }, ..w }
    } else {
        base_world(pre)
    }
}

/// The entity `e` is an item in the player's inventory (the player's own
/// entity excepted).
pub open spec fn carried(pre: WorldView, e: (u32, Indexes)) -> bool {
    &&& e.1.symbol is Some
    &&& e.1.map_object is Some
    &&& e.1.item is Some
    &&& pre.items[e.1.item.unwrap() as int].owner == pre.player.id
    &&& e.0 != pre.player.id
}

/// An item of the inventory as it is carried to the next level, owned by
/// `owner`.
pub open spec fn item_copy(pre: WorldView, ix: Indexes, owner: u32) -> BuilderView {
    BuilderView {
        symbol: Some(pre.symbols[ix.symbol.unwrap() as int]),
        map_object: Some(pre.map_objects[ix.map_object.unwrap() as int]),
        item: Some(OwnedItem { item: pre.items[ix.item.unwrap() as int].item, owner }),
        equipment: match ix.equipment {
            Some(k) => Some(pre.equipments[k as int]),
            None => None,
        },
        ammo: match ix.ammo {
            Some(k) => Some(pre.ammos[k as int]),
            None => None,
        },
        ..BuilderView::empty()
    }
}

/// `w` with the inventory items among the first `n` entities of `pre` copied.
pub open spec fn copy_inventory(w: WorldView, pre: WorldView, owner: u32, n: int) -> WorldView
    decreases n,
{
    if n <= 0 {
        w
    } else {
        let prev = copy_inventory(w, pre, owner, n - 1);
        let e = pre.entities[n - 1];
        if carried(pre, e) {
            item_copy(pre, e.1, owner).stored_in(prev)
        } else {
            prev
        }
    }
}

/// The entity `e` holds a log message (the player's own entity excepted).
pub open spec fn holds_log(pre: WorldView, e: (u32, Indexes)) -> bool {
    e.1.log_message is Some && e.0 != pre.player.id
}

/// `w` with the log messages held by the first `n` entities of `pre` copied.
pub open spec fn copy_logs(w: WorldView, pre: WorldView, n: int) -> WorldView
    decreases n,
{
    if n <= 0 {
        w
    } else {
        let prev = copy_logs(w, pre, n - 1);
        let e = pre.entities[n - 1];
        if holds_log(pre, e) {
            BuilderView {
                log_message: Some(pre.log[e.1.log_message.unwrap() as int]),
                ..BuilderView::empty()
            }.stored_in(prev)
        } else {
            prev
        }
    }
}

/// The world cleared for the next level: only the player, its inventory and
/// the log are kept, as new entities.
pub open spec fn cleared(pre: WorldView) -> WorldView {
    let w1 = with_player(pre);
    let w2 = copy_inventory(w1, pre, w1.player.id, pre.entities.len() as int);
    copy_logs(w2, pre, pre.entities.len() as int)
}

/// The number of items the player carries among the first `n` entities.
pub open spec fn carried_count(pre: WorldView, n: int) -> int
    decreases n,
{
    if n <= 0 {
        0
    } else {
        carried_count(pre, n - 1) + if carried(pre, pre.entities[n - 1]) {
            1int
        } else {
            0
        }
    }
}

/// The number of log messages held among the first `n` entities.
pub open spec fn log_count(pre: WorldView, n: int) -> int
    decreases n,
{
    if n <= 0 {
        0
    } else {
        log_count(pre, n - 1) + if holds_log(pre, pre.entities[n - 1]) {
            1int
        } else {
            0
        }
    }
}

pub proof fn lemma_counts_nonneg(pre: WorldView, n: int)
    ensures
        0 <= carried_count(pre, n),
        0 <= log_count(pre, n),
    decreases n,
{
    if n > 0 {
        lemma_counts_nonneg(pre, n - 1);
    }
}

pub proof fn lemma_counts_grow(pre: WorldView, i: int, n: int)
    requires
        0 <= i <= n,
    ensures
        0 <= carried_count(pre, i) <= carried_count(pre, n),
        0 <= log_count(pre, i) <= log_count(pre, n),
    decreases n - i,
{
    if i < n {
        lemma_counts_grow(pre, i, n - 1);
    } else {
        lemma_counts_nonneg(pre, n);
    }
}

/// The ids that clearing the world takes fit: one for the player, and one
/// for each item it carries and each log message.
pub open spec fn clear_fits(pre: WorldView) -> bool {
    let n = pre.entities.len() as int;
    pre.id_count + (if pre.has(pre.player.id) {
        1int
    } else {
        0
    }) + carried_count(pre, n) + log_count(pre, n) <= u32::MAX
}

/// What copies into a new world keep: the invariant, the ids still to be
/// taken, and the player's fighter as the only one.
pub open spec fn copy_ok(w: WorldView, pre: WorldView, budget: int) -> bool {
    &&& w.wf()
    &&& w.id_count + budget <= u32::MAX
    &&& w.characters.len() <= 1
    &&& forall|k: int| 0 <= k < w.characters.len() ==> #[trigger] w.characters[k] == pre.char_of(pre.player.id)
}

/// Builds the world of the next level from `world`: only the player, its
/// inventory and the log are kept.
#[verifier::rlimit(40)]
#[verifier::spinoff_prover]
fn clear_dungeon(world: &mut World)
    requires
        old(world)@.wf(),
        clear_fits(old(world)@),
        old(world)@.has(old(world)@.player.id) ==> old(world)@.is_fighter(old(world)@.player.id)
            && old(world)@.has_symbol(old(world)@.player.id),
    ensures
        final(world)@ == cleared(old(world)@),
        final(world)@.wf(),
        copy_ok(final(world)@, old(world)@, 0),
        old(world)@.has(old(world)@.player.id) ==> final(world)@.is_fighter(final(world)@.player.id)
            && final(world)@.char_of(final(world)@.player.id) == old(world)@.char_of(old(world)@.player.id),
        final(world)@.player.dungeon_level == old(world)@.player.dungeon_level,
{
    let ghost pre = world@;
    let n = world.entity_indexes.len();
    // create new world for storing entities that should be saved
    let mut temp = World::default();
    temp.id_count = world.id_count;
    //copy player
    let mut look_at: Vec<Option<u32>> = Vec::new();
    let mut k: usize = 0;
    while k < world.player.look_at.len()
        invariant
            k <= world@.player.look_at.len(),
            look_at@ =~= Seq::new(k as nat, |i: int| None::<u32>),
        decreases world@.player.look_at.len() - k,
    {
        look_at.push(None);
        k = k + 1;
    }
    temp.player = crate::cmtp::Player {
        id: world.player.id,
        dungeon_level: world.player.dungeon_level,
        state: world.player.state,
        action: world.player.action,
        looking_at: None,
        look_at,
        previous_player_position: world.player.previous_player_position,
    };
    proof {
        let b = base_world(pre);
        assert(temp@.player.look_at =~= b.player.look_at);
        assert(temp@.player == b.player);
        assert(temp@.entities =~= b.entities);
        assert(temp@.symbols =~= b.symbols);
        assert(temp@.map =~= b.map);
        assert(temp@.map_objects =~= b.map_objects);
        assert(temp@.characters =~= b.characters);
        assert(temp@.ais =~= b.ais);
        assert(temp@.items =~= b.items);
        assert(temp@.equipments =~= b.equipments);
        assert(temp@.ammos =~= b.ammos);
        assert(temp@.log =~= b.log);
        assert(temp@.dialogs =~= b.dialogs);
        assert(temp@ == b);
        lemma_counts_grow(pre, 0, pre.entities.len() as int);
    }
    let pid = world.player.id;
    // move player entity if exist
    if let Some(ix) = world.get_indexes(pid) {
        proof {
            pre.lemma_wf_indexes(pid);
        }
        let symbol = world.symbols[ix.symbol.unwrap()];
        let map_object = world.map_objects[ix.map_object.unwrap()].copy();
        let character = world.characters[ix.character.unwrap()];
        proof {
            pre.lemma_symbol_on_grid(ix.symbol.unwrap() as int);
        }
        let new_id = new_entity().add_symbol(symbol).add_map_object(map_object).add_character(
            character,
        ).add_ai(AiOption { option: None }).create(&mut temp);
        temp.player.id = new_id;
    }
    let ghost w1 = temp@;
    let ghost cn = carried_count(pre, n as int);
    let ghost ln = log_count(pre, n as int);
    proof {
        assert(w1 == with_player(pre));
        assert(copy_ok(w1, pre, cn + ln));
        assert(pre.has(pid) ==> w1.is_fighter(w1.player.id) && w1.char_of(w1.player.id) == pre.char_of(pid)
            && w1.has(w1.player.id) && w1.pos_of(w1.player.id) == 0) by {
            if pre.has(pid) {
                w1.lemma_indexes_at(0);
                assert(w1.entities[0].0 == w1.player.id);
            }
        }
    }
    let owner = temp.player.id;
    // copy inventory
    let mut i: usize = 0;
    while i < n
        invariant
            pre == world@,
            pre.wf(),
            n == pre.entities.len(),
            cn == carried_count(pre, n as int),
            ln == log_count(pre, n as int),
            owner == w1.player.id,
            w1.wf(),
            pid == pre.player.id,
            i <= n,
            temp@ == copy_inventory(w1, pre, owner, i as int),
            temp@.player == w1.player,
            pre.has(pid) ==> temp@.is_fighter(owner) && temp@.char_of(owner) == pre.char_of(pid),
            pre.has(pid) ==> w1.has(owner) && w1.pos_of(owner) == 0,
            temp@.entities.len() >= w1.entities.len(),
            temp@.entities.subrange(0, w1.entities.len() as int) == w1.entities,
            copy_ok(temp@, pre, cn - carried_count(pre, i as int) + ln),
        decreases n - i,
    {
        let (id, ix) = world.entity_indexes[i];
        proof {
            assert(pre.indexes_wf(pre.entities[i as int].1));
            lemma_counts_grow(pre, i as int + 1, n as int);
        }
        match (ix.symbol, ix.map_object, ix.item) {
            (Some(si), Some(mi), Some(ii)) => {
                if world.items[ii].owner == pid && id != pid {
                    proof {
                        pre.lemma_symbol_on_grid(si as int);
                    }
                    let equipment = match ix.equipment {
                        Some(k) => Some(world.equipments[k]),
                        None => None,
                    };
                    let ammo = match ix.ammo {
                        Some(k) => Some(world.ammos[k]),
                        None => None,
                    };
                    let ghost before = temp@;
                    let b = new_entity().add_symbol(world.symbols[si]).add_map_object(
                        world.map_objects[mi].copy(),
                    ).add_item(OwnedItem { item: world.items[ii].item, owner }).add_equipment(
                        equipment,
                    ).add_ammo(ammo);
                    proof {
                        assert(b@ == item_copy(pre, ix, owner));
                        assert(carried(pre, pre.entities[i as int]));
                    }
                    b.create(&mut temp);
                    proof {
                        let after = temp@;
                        assert(after == copy_inventory(w1, pre, owner, i as int + 1));
                        assert(after.entities.subrange(0, w1.entities.len() as int) =~= w1.entities);
                        if pre.has(pid) {
                            w1.lemma_has_appended(after, owner);
                        }
                        assert(after.characters == before.characters);
                        assert(after.wf());
                    }
                }
            },
            _ => {},
        }
        i = i + 1;
    }
    let ghost w2 = temp@;
    // copy logs
    let mut i: usize = 0;
    while i < n
        invariant
            pre == world@,
            pre.wf(),
            n == pre.entities.len(),
            ln == log_count(pre, n as int),
            pid == pre.player.id,
            w1.wf(),
            i <= n,
            temp@ == copy_logs(w2, pre, i as int),
            temp@.player == w1.player,
            pre.has(pid) ==> temp@.is_fighter(w1.player.id) && temp@.char_of(w1.player.id) == pre.char_of(pid),
            pre.has(pid) ==> w1.has(w1.player.id) && w1.pos_of(w1.player.id) == 0,
            temp@.entities.len() >= w1.entities.len(),
            temp@.entities.subrange(0, w1.entities.len() as int) == w1.entities,
            copy_ok(temp@, pre, ln - log_count(pre, i as int)),
        decreases n - i,
    {
        let (id, ix) = world.entity_indexes[i];
        proof {
            assert(pre.indexes_wf(pre.entities[i as int].1));
            lemma_counts_grow(pre, i as int + 1, n as int);
        }
        if let Some(li) = ix.log_message {
            if id != pid {
                let ghost before = temp@;
                let b = new_entity().add_log_message(world.log[li].copy());
                proof {
                    assert(b@ == BuilderView { log_message: Some(pre.log[li as int]), ..BuilderView::empty() });
                    assert(holds_log(pre, pre.entities[i as int]));
                }
                b.create(&mut temp);
                proof {
                    assert(temp@ == copy_logs(w2, pre, i as int + 1));
                    assert(temp@.entities.subrange(0, w1.entities.len() as int) =~= w1.entities);
                    if pre.has(pid) {
                        w1.lemma_has_appended(temp@, w1.player.id);
                    }
                    let after = temp@;
                    assert(after.equipments == before.equipments);
                    assert(after.characters == before.characters);
                    assert(after.ammos == before.ammos);
                }
            }
        }
        i = i + 1;
    }
    *world = temp;
}

/// The log messages held among the first `n` entities (the player's own
/// entity excepted), in order.
pub open spec fn kept_logs(pre: WorldView, n: int) -> Seq<(Seq<char>, crate::cmtp::Color)>
    decreases n,
{
    if n <= 0 {
        seq![]
    } else {
        let e = pre.entities[n - 1];
        if holds_log(pre, e) {
            kept_logs(pre, n - 1).push(pre.log[e.1.log_message.unwrap() as int])
        } else {
            kept_logs(pre, n - 1)
        }
    }
}

/// What copying items keeps: the log, the map, the dialogs and the flag;
/// one new entity, with a fresh id, for each item carried.
proof fn lemma_copy_inventory_keeps(w: WorldView, pre: WorldView, owner: u32, k: int)
    requires
        0 <= k <= pre.entities.len(),
        w.id_count + carried_count(pre, k) <= u32::MAX,
    ensures
        ({
            let c = copy_inventory(w, pre, owner, k);
            &&& c.log == w.log
            &&& c.map == w.map
            &&& c.dialogs == w.dialogs
            &&& c.must_be_destroyed == w.must_be_destroyed
            &&& c.id_count == w.id_count + carried_count(pre, k)
            &&& c.entities.len() == w.entities.len() + carried_count(pre, k)
            &&& c.entities.subrange(0, w.entities.len() as int) == w.entities
            &&& forall|i: int| w.entities.len() <= i < c.entities.len() ==> w.id_count < (#[trigger] c.entities[i]).0 <= c.id_count
        }),
    decreases k,
{
    lemma_counts_nonneg(pre, k);
    if k > 0 {
        lemma_counts_nonneg(pre, k - 1);
        lemma_copy_inventory_keeps(w, pre, owner, k - 1);
        let prev = copy_inventory(w, pre, owner, k - 1);
        let c = copy_inventory(w, pre, owner, k);
        if carried(pre, pre.entities[k - 1]) {
            assert(c.entities.subrange(0, w.entities.len() as int) =~= prev.entities.subrange(0, w.entities.len() as int));
            assert forall|i: int| w.entities.len() <= i < c.entities.len() implies w.id_count < (#[trigger] c.entities[i]).0 <= c.id_count by {
                if i < prev.entities.len() {
                    assert(c.entities[i] == prev.entities[i]);
                }
            }
        }
    }
}

/// What copying log messages keeps: the map, the dialogs and the flag; the
/// messages held, appended in order to the log, each by a new entity with a
/// fresh id.
proof fn lemma_copy_logs_keeps(w: WorldView, pre: WorldView, k: int)
    requires
        0 <= k <= pre.entities.len(),
        w.id_count + log_count(pre, k) <= u32::MAX,
    ensures
        ({
            let c = copy_logs(w, pre, k);
            &&& c.log == w.log + kept_logs(pre, k)
            &&& c.map == w.map
            &&& c.dialogs == w.dialogs
            &&& c.must_be_destroyed == w.must_be_destroyed
            &&& c.id_count == w.id_count + log_count(pre, k)
            &&& c.entities.len() == w.entities.len() + log_count(pre, k)
            &&& c.entities.subrange(0, w.entities.len() as int) == w.entities
            &&& forall|i: int| w.entities.len() <= i < c.entities.len() ==> w.id_count < (#[trigger] c.entities[i]).0 <= c.id_count
        }),
    decreases k,
{
    lemma_counts_nonneg(pre, k);
    if k > 0 {
        lemma_counts_nonneg(pre, k - 1);
        lemma_copy_logs_keeps(w, pre, k - 1);
        let prev = copy_logs(w, pre, k - 1);
        let c = copy_logs(w, pre, k);
        if holds_log(pre, pre.entities[k - 1]) {
            assert(c.log =~= w.log + kept_logs(pre, k));
            assert(c.entities.subrange(0, w.entities.len() as int) =~= prev.entities.subrange(0, w.entities.len() as int));
            assert forall|i: int| w.entities.len() <= i < c.entities.len() implies w.id_count < (#[trigger] c.entities[i]).0 <= c.id_count by {
                if i < prev.entities.len() {
                    assert(c.entities[i] == prev.entities[i]);
                }
            }
        } else {
            assert(kept_logs(pre, k) == kept_logs(pre, k - 1));
        }
    }
}

/// Clearing the dungeon keeps only the player, the items it carries and the
/// log messages: the map and the dialogs are gone, the log holds the old
/// messages in the order of their entities, there is one entity for the
/// player (if it was there), one for each item it carries and one for each
/// message, and every entity has a fresh id.
pub proof fn law_cleared_keeps(pre: WorldView)
    requires
        pre.wf(),
        clear_fits(pre),
    ensures
        ({
            let post = cleared(pre);
            let n = pre.entities.len() as int;
            &&& post.map.len() == 0
            &&& post.dialogs.len() == 0
            &&& !post.must_be_destroyed
            &&& post.log == kept_logs(pre, n)
            &&& post.entities.len() == (if pre.has(pre.player.id) {
                1int
            } else {
                0
            }) + carried_count(pre, n) + log_count(pre, n)
            &&& forall|i: int| 0 <= i < post.entities.len() ==> pre.id_count < (#[trigger] post.entities[i]).0 <= post.id_count
        }),
{
    let n = pre.entities.len() as int;
    lemma_counts_nonneg(pre, n);
    let w1 = with_player(pre);
    assert(w1.log.len() == 0);
    assert(w1.entities.len() == (if pre.has(pre.player.id) { 1int } else { 0 }));
    assert(w1.id_count == pre.id_count + w1.entities.len());
    assert(forall|i: int| 0 <= i < w1.entities.len() ==> pre.id_count < (#[trigger] w1.entities[i]).0 <= w1.id_count);
    lemma_copy_inventory_keeps(w1, pre, w1.player.id, n);
    let w2 = copy_inventory(w1, pre, w1.player.id, n);
    lemma_copy_logs_keeps(w2, pre, n);
    let post = copy_logs(w2, pre, n);
    assert(post.log =~= kept_logs(pre, n));
    assert forall|i: int| 0 <= i < post.entities.len() implies pre.id_count < (#[trigger] post.entities[i]).0 <= post.id_count by {
        if i < w2.entities.len() {
            assert(post.entities[i] == post.entities.subrange(0, w2.entities.len() as int)[i]);
            if i < w1.entities.len() {
                assert(w2.entities[i] == w2.entities.subrange(0, w1.entities.len() as int)[i]);
            }
        }
    }
}

/// The entity `e` is an item lying visible at `(x, y)`.
pub open spec fn floor_item_pred(w: WorldView, x: int, y: int) -> spec_fn((u32, Indexes)) -> bool {
    |e: (u32, Indexes)|
        e.1.symbol is Some && e.1.map_object is Some && e.1.item is Some
            && w.symbols[e.1.symbol.unwrap() as int].x == x && w.symbols[e.1.symbol.unwrap() as int].y == y
            && !w.map_objects[e.1.map_object.unwrap() as int].hidden
}

/// Stairs lie at `(x, y)`.
pub open spec fn stairs_at(w: WorldView, x: int, y: int) -> bool {
    exists|p: int| 0 <= p < w.entities.len() && {
        let ix = (#[trigger] w.entities[p]).1;
        &&& ix.symbol is Some
        &&& ix.map_object is Some
        &&& w.symbols[ix.symbol.unwrap() as int].x == x
        &&& w.symbols[ix.symbol.unwrap() as int].y == y
        &&& w.map_objects[ix.map_object.unwrap() as int].name == "stairs"@
    }
}

/// The entity `e` is a stack in the player's inventory of the same ammunition
/// (same name and kind) as the item `new_id`.
pub open spec fn same_ammo_pred(w: WorldView, new_id: u32) -> spec_fn((u32, Indexes)) -> bool {
    |e: (u32, Indexes)|
        e.1.symbol is Some && e.1.map_object is Some && e.1.item is Some && e.1.ammo is Some
            && w.items[e.1.item.unwrap() as int].owner == w.player.id
            && w.map_objects[e.1.map_object.unwrap() as int].name == w.mobj_of(new_id).name
            && w.ammos[e.1.ammo.unwrap() as int].kind == w.ammo_of(new_id).unwrap().kind
}

/// The stack the ammunition `new_id` joins, if it is ammunition and the player
/// carries the same kind already.
pub open spec fn existing_ammo(w: WorldView, new_id: u32) -> Option<u32> {
    if w.ammo_of(new_id) is Some {
        first(w.entities, same_ammo_pred(w, new_id))
    } else {
        None
    }
}

pub open spec fn picked_msg(name: Seq<char>) -> Seq<char> {
    "You picked up a "@ + name + "!"@
}

pub open spec fn full_msg(name: Seq<char>) -> Seq<char> {
    "Your inventory is full, cannot pick up "@ + name + "."@
}

/// The world after the player tries to pick up the item `id`: with room in
/// the inventory it takes the item off the map and, if it is equipment for a
/// free slot other than ammunition, puts it on.
pub open spec fn picked_up(w: WorldView, id: u32) -> WorldView {
    let name = w.mobj_of(id).name;
    if game::count_owned(w.items, w.player.id, w.items.len() as int) >= cfg::INVENTORY_CAPACITY {
        w.with_log(full_msg(name), cfg::color_dark_red())
    } else {
        let w1 = w.with_log(picked_msg(name), cfg::color_green());
        let ii = w.ix(id).item.unwrap() as int;
        let mi = w.ix(id).map_object.unwrap() as int;
        let w2 = WorldView {
            items: w1.items.update(ii, OwnedItem { owner: w.player.id, ..w1.items[ii] }),
            map_objects: w1.map_objects.update(mi, crate::cmtp::MapObjectView { hidden: true, ..w1.map_objects[mi] }),
            ..w1
        };
        match w.eqp_of(id) {
            Some(e) => if e.slot != Slot::Ammo && (choose|r: Option<u32>| w2.is_equipped_in_slot(e.slot, r)) is None {
                crate::game::equipped(w2, id)
            } else {
                w2
            },
            None => w2,
        }
    }
}

/// The world after the ammunition `new_id` joins the stack `existing_id`.
pub open spec fn ammo_added(w: WorldView, existing_id: u32, new_id: u32) -> WorldView {
    let name = w.mobj_of(new_id).name;
    let count = w.ammo_of(new_id).unwrap().count;
    let ak = w.ix(existing_id).ammo.unwrap() as int;
    let w1 = WorldView {
        ammos: w.ammos.update(ak, crate::cmtp::Ammo { count: (w.ammos[ak].count + count) as u32, ..w.ammos[ak] }),
        ..w
    }.without(new_id);
    w1.with_log(picked_msg(name), cfg::color_green())
}

/// Rust's division by two, rounding towards zero.
pub open spec fn half(v: int) -> int {
    if v >= 0 {
        v / 2
    } else {
        -((-v) / 2)
    }
}

pub open spec fn rest_msg() -> Seq<char> {
    "You take a moment to rest, and recover your strength."@
}

pub open spec fn descend_msg() -> Seq<char> {
    "After a rare moment of peace, you descend deeper into the heart of the mine..."@
}

/// The world after the player takes the stairs: the level is cleared, the
/// player heals half its maximum hit points and goes one level deeper.
pub open spec fn next_level_world(w: WorldView) -> WorldView {
    let c1 = cleared(w).with_log(rest_msg(), cfg::color_green());
    let pid = c1.player.id;
    let c2 = crate::game::healed_world(c1, pid, half(c1.stat(pid, game::Stat::MaxHp)));
    let c3 = c2.with_log(descend_msg(), cfg::color_orange());
    WorldView {
        player: PlayerView { dungeon_level: (c3.player.dungeon_level + 1) as u32, ..c3.player },
        ..c3
    }
}

/// The numbers taking the stairs computes fit: the ids of the cleared world
/// and of its two messages, the player's maximum hit points there and its
/// healed hit points, and the number of the next level.
pub open spec fn next_level_fits(w: WorldView) -> bool {
    let c1 = cleared(w).with_log(rest_msg(), cfg::color_green());
    let pid = c1.player.id;
    &&& clear_fits(w)
    &&& cleared(w).id_count + 2 <= u32::MAX
    &&& c1.stat_fits(pid, game::Stat::MaxHp)
    &&& i32::MIN <= c1.char_of(pid).hp + half(c1.stat(pid, game::Stat::MaxHp)) <= i32::MAX
    &&& w.player.dungeon_level < u32::MAX
}

/// The world after a frame of the map-interaction system: during a turn, the
/// living player interacting with the map picks up the first visible item
/// under it (joining ammunition to a stack it has), or else takes stairs
/// under it.
pub open spec fn map_interaction_step(w: WorldView) -> WorldView {
    if w.player.state != PlayerState::MakingTurn || w.player.action != crate::cmtp::PlayerAction::InteractWithMap
        || !w.player_alive() {
        w
    } else {
        let s = w.sym_of(w.player.id);
        match first(w.entities, floor_item_pred(w, s.x as int, s.y as int)) {
            Some(it) => match existing_ammo(w, it) {
                Some(e) => ammo_added(w, e, it),
                None => picked_up(w, it),
            },
            None => if stairs_at(w, s.x as int, s.y as int) {
                next_level_world(w)
            } else {
                w
            },
        }
    }
}

/// What a frame of the map-interaction system needs: the numbers of what it
/// does fit (the ids of its messages, a joined stack of ammunition, and
/// taking the stairs).
pub open spec fn map_interaction_ready(w: WorldView) -> bool {
    (w.player.state == PlayerState::MakingTurn && w.player.action == crate::cmtp::PlayerAction::InteractWithMap
        && w.player_alive()) ==> {
        let s = w.sym_of(w.player.id);
        match first(w.entities, floor_item_pred(w, s.x as int, s.y as int)) {
            Some(it) => match existing_ammo(w, it) {
                Some(e) => {
                    &&& w.id_count < u32::MAX
                    &&& w.ammos[w.ix(e).ammo.unwrap() as int].count + w.ammo_of(it).unwrap().count <= u32::MAX
                },
                None => w.id_count + 2 <= u32::MAX,
            },
            None => stairs_at(w, s.x as int, s.y as int) ==> next_level_fits(w),
        }
    }
}

/// Adds the item to the player's inventory and removes it from the map.
fn pick_item_up(object_id: u32, world: &mut World)
    requires
        old(world)@.wf(),
        old(world)@.is_item(object_id),
        old(world).id_count + 2 <= u32::MAX,
    ensures
        final(world)@.wf(),
        final(world)@ == picked_up(old(world)@, object_id),
{
    let ghost pre = world@;
    let ix = world.get_indexes(object_id).unwrap();
    proof {
        pre.lemma_wf_indexes(object_id);
    }
    let name = world.map_objects[ix.map_object.unwrap()].name.clone();
    let inventory_len = world.count_owned(world.player.id);
    if inventory_len >= cfg::INVENTORY_CAPACITY {
        let mut msg = String::from_str("Your inventory is full, cannot pick up ");
        msg.append(name.as_str());
        msg.append(".");
        world.add_log(cfg::color_dark_red(), msg);
    } else {
        let mut msg = String::from_str("You picked up a ");
        msg.append(name.as_str());
        msg.append("!");
        world.add_log(cfg::color_green(), msg);
        proof {
            pre.lemma_with_log(picked_msg(name@), cfg::color_green());
            assert(world@.indexes_of(object_id) == pre.indexes_of(object_id));
        }
        let player_id = world.player.id;
        let ii = ix.item.unwrap();
        let mi = ix.map_object.unwrap();
        let mut item = world.items[ii];
        item.owner = player_id;
        world.items.set(ii, item);
        let ghost mos = world@.map_objects;
        world.map_objects[mi].hidden = true;
        let ghost w2 = world@;
        proof {
            let w1 = pre.with_log(picked_msg(name@), cfg::color_green());
            assert(w2.map_objects =~= w1.map_objects.update(mi as int, crate::cmtp::MapObjectView { hidden: true, ..w1.map_objects[mi as int] }));
            w1.lemma_same_entities(w2);
        }
        // automatically equip, if the corresponding equipment slot is unused
        if let Some(ei) = ix.equipment {
            let slot = world.equipments[ei].slot;
            if slot != Slot::Ammo {
                let current = world.get_equipped_in_slot(slot);
                proof {
                    crate::systems::player_action::lemma_equipped_unique(w2, slot, current);
                }
                if current.is_none() {
                    crate::game::equip(object_id, world);
                }
            }
        }
    }
}

/// The stack of the same ammunition the player carries, if `unknown_item_id`
/// is ammunition.
fn get_existing_ammo(unknown_item_id: u32, world: &World) -> (r: Option<u32>)
    requires
        world@.wf(),
        world@.is_item(unknown_item_id),
    ensures
        r == existing_ammo(world@, unknown_item_id),
        r is Some ==> is_first(world@.entities, same_ammo_pred(world@, unknown_item_id), r),
{
    let ghost w = world@;
    let ix = world.get_indexes(unknown_item_id).unwrap();
    proof {
        w.lemma_wf_indexes(unknown_item_id);
    }
    let ak = match ix.ammo {
        Some(ak) => ak,
        None => return None,
    };
    let kind = world.ammos[ak].kind;
    let item_name = &world.map_objects[ix.map_object.unwrap()].name;
    let player_id = world.player.id;
    let ghost pred = same_ammo_pred(w, unknown_item_id);
    let mut i: usize = 0;
    while i < world.entity_indexes.len()
        invariant
            w == world@,
            w.wf(),
            pred == same_ammo_pred(w, unknown_item_id),
            w.ammo_of(unknown_item_id) == Some(w.ammos[ak as int]),
            kind == w.ammos[ak as int].kind,
            item_name@ == w.mobj_of(unknown_item_id).name,
            player_id == w.player.id,
            i <= w.entities.len(),
            forall|q: int| 0 <= q < i ==> !pred(#[trigger] w.entities[q]),
        decreases w.entities.len() - i,
    {
        let (id, e) = world.entity_indexes[i];
        proof {
            assert(w.indexes_wf(w.entities[i as int].1));
        }
        match (e.symbol, e.map_object, e.item, e.ammo) {
            (Some(_), Some(mo), Some(it), Some(am)) => {
                if world.items[it].owner == player_id && world.map_objects[mo].name == *item_name
                    && world.ammos[am].kind == kind {
                    proof {
                        assert(pred(w.entities[i as int]));
                        lemma_first(w.entities, pred, Some(id));
                    }
                    return Some(id);
                }
            },
            _ => {},
        }
        i = i + 1;
    }
    proof {
        lemma_first(w.entities, pred, None);
    }
    None
}

/// Joins the ammunition `new_ammo_id` to the stack `existing_ammo_id`.
fn add_ammo_to_existing(existing_ammo_id: u32, new_ammo_id: u32, world: &mut World)
    requires
        old(world)@.wf(),
        old(world)@.is_item(new_ammo_id),
        old(world)@.ammo_of(new_ammo_id) is Some,
        old(world)@.has(existing_ammo_id),
        old(world)@.ix(existing_ammo_id).ammo is Some,
        old(world)@.ammos[old(world)@.ix(existing_ammo_id).ammo.unwrap() as int].count
            + old(world)@.ammo_of(new_ammo_id).unwrap().count <= u32::MAX,
        old(world).id_count < u32::MAX,
    ensures
        final(world)@.wf(),
        final(world)@ == ammo_added(old(world)@, existing_ammo_id, new_ammo_id),
{
    let ghost pre = world@;
    let nix = world.get_indexes(new_ammo_id).unwrap();
    let eix = world.get_indexes(existing_ammo_id).unwrap();
    proof {
        pre.lemma_wf_indexes(new_ammo_id);
        pre.lemma_wf_indexes(existing_ammo_id);
    }
    let name = world.map_objects[nix.map_object.unwrap()].name.clone();
    let count_of_new = world.ammos[nix.ammo.unwrap()].count;
    let ak = eix.ammo.unwrap();
    let mut existing_ammo = world.ammos[ak];
    existing_ammo.count = existing_ammo.count + count_of_new;
    world.ammos.set(ak, existing_ammo);
    proof {
        pre.lemma_same_entities(world@);
    }
    world.remove_entity(new_ammo_id);
    let mut msg = String::from_str("You picked up a ");
    msg.append(name.as_str());
    msg.append("!");
    world.add_log(cfg::color_green(), msg);
}

/// Advances to the next level.
#[verifier::rlimit(40)]
#[verifier::spinoff_prover]
fn next_level(world: &mut World)
    requires
        old(world)@.wf(),
        next_level_fits(old(world)@),
        old(world)@.is_character(old(world)@.player.id),
    ensures
        final(world)@.wf(),
        final(world)@ == next_level_world(old(world)@),
{
    let ghost pre = world@;
    proof {
        pre.lemma_wf_indexes(pre.player.id);
    }
    clear_dungeon(world);
    let ghost c = world@;
    world.add_log(cfg::color_green(), String::from_str("You take a moment to rest, and recover your strength."));
    let ghost c1 = world@;
    let pid = world.player.id;
    proof {
        c.lemma_with_log(rest_msg(), cfg::color_green());
        assert(c1.indexes_of(pid) == c.indexes_of(pid));
        c1.lemma_wf_indexes(pid);
    }
    let heal_hp = world.max_hp(pid) / 2;
    crate::game::heal(pid, heal_hp, world);
    world.add_log(
        cfg::color_orange(),
        String::from_str("After a rare moment of peace, you descend deeper into the heart of the mine..."),
    );
    world.player.dungeon_level = world.player.dungeon_level + 1;
    proof {
        let want = next_level_world(pre);
        assert(world@.player.look_at == want.player.look_at);
        assert(world@ == want);
    }
}

fn find_floor_item(world: &World, x: i32, y: i32) -> (r: Option<u32>)
    requires
        world@.wf(),
    ensures
        is_first(world@.entities, floor_item_pred(world@, x as int, y as int), r),
{
    let ghost pred = floor_item_pred(world@, x as int, y as int);
    let mut i: usize = 0;
    while i < world.entity_indexes.len()
        invariant
            world@.wf(),
            pred == floor_item_pred(world@, x as int, y as int),
            i <= world@.entities.len(),
            forall|q: int| 0 <= q < i ==> !pred(#[trigger] world@.entities[q]),
        decreases world@.entities.len() - i,
    {
        let (id, ix) = world.entity_indexes[i];
        proof {
            assert(world@.indexes_wf(world@.entities[i as int].1));
        }
        match (ix.symbol, ix.map_object, ix.item) {
            (Some(s), Some(mo), Some(_)) => {
                if world.symbols[s].x == x && world.symbols[s].y == y && !world.map_objects[mo].hidden {
                    proof {
                        assert(pred(world@.entities[i as int]));
                    }
                    return Some(id);
                }
            },
            _ => {},
        }
        i = i + 1;
    }
    None
}

fn on_stairs(world: &World, x: i32, y: i32) -> (r: bool)
    requires
        world@.wf(),
    ensures
        r == stairs_at(world@, x as int, y as int),
{
    let stairs = String::from_str("stairs");
    let mut i: usize = 0;
    while i < world.entity_indexes.len()
        invariant
            world@.wf(),
            stairs@ == "stairs"@,
            i <= world@.entities.len(),
            forall|q: int| 0 <= q < i ==> {
                let ix = (#[trigger] world@.entities[q]).1;
                !(ix.symbol is Some && ix.map_object is Some
                    && world@.symbols[ix.symbol.unwrap() as int].x == x
                    && world@.symbols[ix.symbol.unwrap() as int].y == y
                    && world@.map_objects[ix.map_object.unwrap() as int].name == "stairs"@)
            },
        decreases world@.entities.len() - i,
    {
        let ix = world.entity_indexes[i].1;
        proof {
            assert(world@.indexes_wf(world@.entities[i as int].1));
        }
        match (ix.symbol, ix.map_object) {
            (Some(s), Some(mo)) => {
                if world.symbols[s].x == x && world.symbols[s].y == y && world.map_objects[mo].name == stairs {
                    return true;
                }
            },
            _ => {},
        }
        i = i + 1;
    }
    false
}

#[verifier::rlimit(40)]
#[verifier::spinoff_prover]
pub fn update(world: &mut World)
    requires
        old(world)@.wf(),
        map_interaction_ready(old(world)@),
    ensures
        final(world)@.wf(),
        final(world)@ == map_interaction_step(old(world)@),
{
    let ghost pre = world@;
    if world.player.state != PlayerState::MakingTurn {
        return;
    }
    if (world.player.action != crate::cmtp::PlayerAction::InteractWithMap) || !world.player_is_alive() {
        return;
    }
    let player_symbol = world.player_sym();
    let (px, py) = (player_symbol.x, player_symbol.y);
    // pick up an item or go to next level
    let item_id = find_floor_item(world, px, py);
    proof {
        lemma_first(pre.entities, floor_item_pred(pre, px as int, py as int), item_id);
    }
    let player_on_stairs = on_stairs(world, px, py);
    if let Some(item_id) = item_id {
        proof {
            let p = choose|p: int| 0 <= p < pre.entities.len() && #[trigger] pre.entities[p].0 == item_id
                && floor_item_pred(pre, px as int, py as int)(pre.entities[p]) && forall|q: int| 0 <= q < p ==> !floor_item_pred(pre, px as int, py as int)(#[trigger] pre.entities[q]);
            pre.lemma_indexes_at(p);
        }
        let maybe_existing_ammo = get_existing_ammo(item_id, world);
        if let Some(existing_ammo_id) = maybe_existing_ammo {
            proof {
                let pred = same_ammo_pred(pre, item_id);
                let p = choose|p: int| 0 <= p < pre.entities.len() && #[trigger] pre.entities[p].0 == existing_ammo_id
                    && pred(pre.entities[p]) && forall|q: int| 0 <= q < p ==> !pred(#[trigger] pre.entities[q]);
                assert(is_first(pre.entities, pred, Some(existing_ammo_id)));
                pre.lemma_indexes_at(p);
                pre.lemma_wf_indexes(item_id);
            }
            add_ammo_to_existing(existing_ammo_id, item_id, world);
        } else {
            pick_item_up(item_id, world);
        }
    } else if player_on_stairs {
        next_level(world);
    }
}

/// Whether a frame of the map-interaction system can run.
#[verifier::rlimit(40)]
#[verifier::spinoff_prover]
pub fn is_ready(world: &World) -> (r: bool)
    requires
        world@.wf(),
    ensures
        r == map_interaction_ready(world@),
{
    let ghost pre = world@;
    if world.player.state == PlayerState::MakingTurn && world.player.action == crate::cmtp::PlayerAction::InteractWithMap
        && world.player_is_alive() {
        let player_symbol = world.player_sym();
        let (px, py) = (player_symbol.x, player_symbol.y);
        let item_id = find_floor_item(world, px, py);
        proof {
            lemma_first(pre.entities, floor_item_pred(pre, px as int, py as int), item_id);
        }
        match item_id {
            Some(item_id) => {
                proof {
                    let p = choose|p: int| 0 <= p < pre.entities.len() && #[trigger] pre.entities[p].0 == item_id
                        && floor_item_pred(pre, px as int, py as int)(pre.entities[p]) && forall|q: int| 0 <= q < p ==> !floor_item_pred(pre, px as int, py as int)(#[trigger] pre.entities[q]);
                    pre.lemma_indexes_at(p);
                }
                match get_existing_ammo(item_id, world) {
                    Some(existing_ammo_id) => {
                        proof {
                            let pred = same_ammo_pred(pre, item_id);
                            let p = choose|p: int| 0 <= p < pre.entities.len() && #[trigger] pre.entities[p].0 == existing_ammo_id
                                && pred(pre.entities[p]) && forall|q: int| 0 <= q < p ==> !pred(#[trigger] pre.entities[q]);
                            pre.lemma_indexes_at(p);
                            pre.lemma_wf_indexes(item_id);
                            pre.lemma_wf_indexes(existing_ammo_id);
                        }
                        let ek = world.get_indexes(existing_ammo_id).unwrap().ammo.unwrap();
                        let nk = world.get_indexes(item_id).unwrap().ammo.unwrap();
                        world.id_count < u32::MAX && world.ammos[ek].count as u64 + world.ammos[nk].count as u64
                            <= u32::MAX as u64
                    },
                    None => world.id_count as u64 + 2 <= u32::MAX as u64,
                }
            },
            None => if on_stairs(world, px, py) {
                check_next_level_fits(world)
            } else {
                true
            },
        }
    } else {
        true
    }
}

/// The numbers of the items the player carries and of the log messages.
fn count_copies(world: &World) -> (r: (u64, u64))
    requires
        world@.wf(),
    ensures
        r.0 == carried_count(world@, world@.entities.len() as int),
        r.1 == log_count(world@, world@.entities.len() as int),
{
    let ghost pre = world@;
    let pid = world.player.id;
    let mut c: u64 = 0;
    let mut l: u64 = 0;
    let mut i: usize = 0;
    while i < world.entity_indexes.len()
        invariant
            pre == world@,
            pre.wf(),
            pid == pre.player.id,
            i <= pre.entities.len(),
            c == carried_count(pre, i as int),
            l == log_count(pre, i as int),
            c <= i,
            l <= i,
        decreases pre.entities.len() - i,
    {
        let (id, ix) = world.entity_indexes[i];
        proof {
            assert(pre.indexes_wf(pre.entities[i as int].1));
        }
        match (ix.symbol, ix.map_object, ix.item) {
            (Some(_), Some(_), Some(ii)) => {
                if world.items[ii].owner == pid && id != pid {
                    c = c + 1;
                }
            },
            _ => {},
        }
        if ix.log_message.is_some() && id != pid {
            l = l + 1;
        }
        i = i + 1;
    }
    (c, l)
}

/// Whether the numbers of taking the stairs fit: the level is cleared on a
/// copy of the world, and the copy is checked.
#[verifier::rlimit(40)]
#[verifier::spinoff_prover]
fn check_next_level_fits(world: &World) -> (r: bool)
    requires
        world@.wf(),
        world@.is_character(world@.player.id),
    ensures
        r == next_level_fits(world@),
{
    let ghost pre = world@;
    if world.player.dungeon_level == u32::MAX {
        return false;
    }
    let (c, l) = count_copies(world);
    proof {
        lemma_counts_nonneg(pre, pre.entities.len() as int);
        pre.lemma_wf_indexes(pre.player.id);
    }
    if world.id_count as u128 + 1 + c as u128 + l as u128 > u32::MAX as u128 {
        return false;
    }
    let hp = world.player_char().hp;
    let mut tmp = world.duplicate();
    clear_dungeon(&mut tmp);
    if tmp.id_count as u64 + 2 > u32::MAX as u64 {
        return false;
    }
    let ghost c0 = tmp@;
    tmp.add_log(cfg::color_green(), String::from_str("You take a moment to rest, and recover your strength."));
    let pid = tmp.player.id;
    proof {
        c0.lemma_with_log(rest_msg(), cfg::color_green());
        assert(tmp@.indexes_of(pid) == c0.indexes_of(pid));
    }
    if !tmp.check_stat_fits(pid, game::Stat::MaxHp) {
        return false;
    }
    let sum = hp as i64 + (tmp.max_hp(pid) / 2) as i64;
    i32::MIN as i64 <= sum && sum <= i32::MAX as i64
}

/// Picking up never takes the player's inventory above its capacity: an item
/// is taken only while fewer than `INVENTORY_CAPACITY` are carried.
pub proof fn law_pick_up_within_capacity(w: WorldView, id: u32)
    requires
        w.wf(),
        w.is_item(id),
        game::count_owned(w.items, w.player.id, w.items.len() as int) <= cfg::INVENTORY_CAPACITY,
    ensures
        game::count_owned(picked_up(w, id).items, w.player.id, w.items.len() as int) <= cfg::INVENTORY_CAPACITY,
        picked_up(w, id).items.len() == w.items.len(),
{
    w.lemma_wf_indexes(id);
    let pid = w.player.id;
    let n = w.items.len() as int;
    if game::count_owned(w.items, pid, n) < cfg::INVENTORY_CAPACITY {
        let ii = w.ix(id).item.unwrap() as int;
        game::lemma_count_owned_update(w.items, pid, n, ii, OwnedItem { owner: pid, ..w.items[ii] });
    }
}

} // verus!
