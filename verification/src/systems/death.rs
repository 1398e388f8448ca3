use crate::cfg;
use crate::cmtp::{Character, DeathCallback, MapObjectView, PlayerState, Symbol};
use crate::engine::entity::Indexes;
use crate::engine::game::{World, WorldView};
use crate::text::{int_text, int_to_string};
use vstd::prelude::*;

verus! {

/// The glyph of a corpse.
pub open spec fn corpse_glyph() -> char {
    '\u{A3}'
}

/// The callback to run for the entity with indexes `ix`: it is a character
/// that died and has something to happen on death.
pub open spec fn death_cb(w: WorldView, ix: Indexes) -> Option<DeathCallback> {
    if ix.symbol is Some && ix.map_object is Some && ix.character is Some && ix.ai is Some {
        let c = w.characters[ix.character.unwrap() as int];
        if !c.alive && c.on_death != DeathCallback::Nothing {
            Some(c.on_death)
        } else {
            None
        }
    } else {
        None
    }
}

/// The death callbacks due among the first `n` entities, in order of id.
pub open spec fn callbacks(w: WorldView, n: int) -> Seq<(u32, DeathCallback)>
    decreases n,
{
    if n <= 0 {
        seq![]
    } else {
        let e = w.entities[n - 1];
        match death_cb(w, e.1) {
            Some(cb) => callbacks(w, n - 1).push((e.0, cb)),
            None => callbacks(w, n - 1),
        }
    }
}

pub open spec fn monster_death_msg(name: Seq<char>, xp: int) -> Seq<char> {
    name + " is dead! You gain "@ + int_text(xp) + " experience points."@
}

/// The world after the player dies: the death is announced, the player
/// becomes a corpse, and nothing more happens when it dies.
pub open spec fn player_died(w: WorldView) -> WorldView {
    let w1 = w.with_log("You died!"@, cfg::color_dark_red());
    let ix = w.ix(w.player.id);
    let si = ix.symbol.unwrap() as int;
    let ci = ix.character.unwrap() as int;
    WorldView {
        symbols: w1.symbols.update(
            si,
            Symbol { glyph: corpse_glyph(), color: cfg::color_dark_red(), ..w1.symbols[si] },
        ),
        characters: w1.characters.update(
            ci,
            Character { on_death: DeathCallback::Nothing, ..w1.characters[ci] },
        ),
        ..w1
    }
}

/// The world after the monster `id` dies: the player is told the experience
/// it gains, and the monster becomes non-blocking remains without a fighter.
pub open spec fn monster_died(w: WorldView, id: u32) -> WorldView {
    let ix = w.ix(id);
    let name = w.mobj_of(id).name;
    let w1 = w.with_log(monster_death_msg(name, w.char_of(id).xp as int), cfg::color_orange());
    let si = ix.symbol.unwrap() as int;
    let mi = ix.map_object.unwrap() as int;
    WorldView {
        symbols: w1.symbols.update(
            si,
            Symbol { glyph: corpse_glyph(), color: cfg::color_dark_red(), ..w1.symbols[si] },
        ),
        map_objects: w1.map_objects.update(
            mi,
            MapObjectView { block: false, name: "remains of "@ + name, ..w1.map_objects[mi] },
        ),
        entities: w1.entities.update(w.pos_of(id), (id, Indexes { character: None, ..ix })),
        ..w1
    }
}

pub open spec fn death_step(w: WorldView, cb: (u32, DeathCallback)) -> WorldView {
    match cb.1 {
        DeathCallback::Player => player_died(w),
        _ => monster_died(w, cb.0),
    }
}

/// The world after running the callbacks `cbs` in order.
pub open spec fn after_deaths(w: WorldView, cbs: Seq<(u32, DeathCallback)>) -> WorldView
    decreases cbs.len(),
{
    if cbs.len() == 0 {
        w
    } else {
        death_step(after_deaths(w, cbs.drop_last()), cbs.last())
    }
}

/// The player will be there when its death is handled.
pub open spec fn deaths_safe(w: WorldView) -> bool {
    let cbs = callbacks(w, w.entities.len() as int);
    &&& w.id_count + cbs.len() <= u32::MAX
    &&& (exists|k: int| 0 <= k < cbs.len() && #[trigger] cbs[k].1 == DeathCallback::Player) ==> {
        &&& w.is_character(w.player.id)
        &&& death_cb(w, w.ix(w.player.id)) != Some(DeathCallback::Monster)
    }
}

/// The world after a frame of the death system: during a turn, every dead
/// character with a death callback has it run, in order of id.
pub open spec fn death_system_step(w: WorldView) -> WorldView {
    if w.player.state == PlayerState::MakingTurn {
        after_deaths(w, callbacks(w, w.entities.len() as int))
    } else {
        w
    }
}

pub proof fn lemma_callbacks(w: WorldView, n: int)
    requires
        w.wf(),
        0 <= n <= w.entities.len(),
    ensures
        callbacks(w, n).len() <= n,
        forall|k: int| 0 <= k < callbacks(w, n).len() ==> {
            let cb = #[trigger] callbacks(w, n)[k];
            &&& w.is_character(cb.0)
            &&& death_cb(w, w.ix(cb.0)) == Some(cb.1)
            &&& cb.1 != DeathCallback::Nothing
            &&& w.pos_of(cb.0) < n
        },
        forall|k1: int, k2: int|
            0 <= k1 < k2 < callbacks(w, n).len() ==> (#[trigger] callbacks(w, n)[k1]).0 < (
            #[trigger] callbacks(w, n)[k2]).0,
    decreases n,
{
    if n > 0 {
        lemma_callbacks(w, n - 1);
        let e = w.entities[n - 1];
        w.lemma_indexes_at(n - 1);
        let prev = callbacks(w, n - 1);
        assert forall|k: int| 0 <= k < prev.len() implies prev[k].0 < e.0 by {
            let p = w.pos_of(prev[k].0);
            assert(w.entities[p].0 == prev[k].0);
            assert(w.entities[p].0 < w.entities[n - 1].0);
        }
    }
}

/// Dying keeps the invariant and every other entity.
pub proof fn lemma_monster_died(w: WorldView, id: u32)
    requires
        w.wf(),
        w.id_count < u32::MAX,
        w.is_character(id),
    ensures
        monster_died(w, id).wf(),
        monster_died(w, id).id_count == w.id_count + 1,
        monster_died(w, id).player == w.player,
        forall|j: u32| j != id && w.has(j) ==> #[trigger] monster_died(w, id).indexes_of(j) == w.indexes_of(j),
        monster_died(w, id).has(id),
{
    let w1 = w.with_log(monster_death_msg(w.mobj_of(id).name, w.char_of(id).xp as int), cfg::color_orange());
    w.lemma_with_log(monster_death_msg(w.mobj_of(id).name, w.char_of(id).xp as int), cfg::color_orange());
    w.lemma_wf_indexes(id);
    let post = monster_died(w, id);
    let p = w.pos_of(id);
    assert(w1.entities[p] == w.entities[p]);
    assert forall|i: int| 0 <= i < post.entities.len() implies post.indexes_wf(#[trigger] post.entities[i].1) by {
        assert(w1.indexes_wf(w1.entities[i].1));
    }
    assert forall|i: int| 0 <= i < post.symbols.len() implies crate::engine::game::on_grid(
        #[trigger] post.symbols[i].x as int,
        post.symbols[i].y as int,
    ) by {
        assert(crate::engine::game::on_grid(w1.symbols[i].x as int, w1.symbols[i].y as int));
    }
    assert forall|i: int, j: int| 0 <= i < j < post.entities.len() implies
        #[trigger] post.entities[i].0 < #[trigger] post.entities[j].0 by {
        assert(w1.entities[i].0 < w1.entities[j].0);
    }
    assert forall|i: int| 0 <= i < post.entities.len() implies 1 <= #[trigger] post.entities[i].0 <= post.id_count by {
        assert(1 <= w1.entities[i].0 <= w1.id_count);
    }
    assert forall|j: u32| j != id && w.has(j) implies #[trigger] post.indexes_of(j) == w.indexes_of(j) by {
        let q = w.pos_of(j);
        w.lemma_wf_indexes(j);
        assert(w1.entities[q] == w.entities[q]);
        assert(post.entities[q] == w.entities[q]);
        post.lemma_indexes_at(q);
    }
    post.lemma_indexes_at(p);
}

pub proof fn lemma_player_died(w: WorldView)
    requires
        w.wf(),
        w.id_count < u32::MAX,
        w.is_character(w.player.id),
    ensures
        player_died(w).wf(),
        player_died(w).id_count == w.id_count + 1,
        player_died(w).player == w.player,
        forall|j: u32| w.has(j) ==> #[trigger] player_died(w).indexes_of(j) == w.indexes_of(j),
{
    let w1 = w.with_log("You died!"@, cfg::color_dark_red());
    w.lemma_with_log("You died!"@, cfg::color_dark_red());
    w.lemma_wf_indexes(w.player.id);
    let post = player_died(w);
    assert forall|i: int| 0 <= i < post.entities.len() implies post.indexes_wf(#[trigger] post.entities[i].1) by {
        assert(w1.indexes_wf(w1.entities[i].1));
    }
    assert forall|i: int| 0 <= i < post.symbols.len() implies crate::engine::game::on_grid(
        #[trigger] post.symbols[i].x as int,
        post.symbols[i].y as int,
    ) by {
        assert(crate::engine::game::on_grid(w1.symbols[i].x as int, w1.symbols[i].y as int));
    }
    w1.lemma_same_entities(post);
    assert forall|j: u32| w.has(j) implies #[trigger] post.indexes_of(j) == w.indexes_of(j) by {
        assert(w1.indexes_of(j) == w.indexes_of(j));
    }
}

/// A death is handled once: after its callback runs, the dead character has
/// no callback left (the player's is cleared, a monster loses its fighter).
pub proof fn law_death_handled_once(w: WorldView, cb: (u32, DeathCallback))
    requires
        w.wf(),
        w.id_count < u32::MAX,
        cb.1 == DeathCallback::Player ==> cb.0 == w.player.id,
        w.is_character(cb.0),
    ensures
        ({
            let post = death_step(w, cb);
            &&& post.has(cb.0)
            &&& death_cb(post, post.ix(cb.0)) is None
        }),
{
    w.lemma_wf_indexes(cb.0);
    match cb.1 {
        DeathCallback::Player => {
            lemma_player_died(w);
        },
        _ => {
            lemma_monster_died(w, cb.0);
            let post = monster_died(w, cb.0);
            let p = w.pos_of(cb.0);
            post.lemma_indexes_at(p);
        },
    }
}

/// Every death callback of the player's kind belongs to the player itself.
pub open spec fn player_callbacks_own(w: WorldView) -> bool {
    let cbs = callbacks(w, w.entities.len() as int);
    forall|k: int| 0 <= k < cbs.len() && #[trigger] cbs[k].1 == DeathCallback::Player ==> cbs[k].0 == w.player.id
}

/// Every entity with a death callback due is listed among the callbacks.
pub proof fn lemma_callbacks_complete(w: WorldView, n: int, p: int)
    requires
        w.wf(),
        0 <= p < n <= w.entities.len(),
        death_cb(w, w.entities[p].1) is Some,
    ensures
        exists|k: int| 0 <= k < callbacks(w, n).len() && (#[trigger] callbacks(w, n)[k]).0 == w.entities[p].0,
    decreases n,
{
    let cbs = callbacks(w, n);
    if p == n - 1 {
        assert(cbs[cbs.len() - 1].0 == w.entities[p].0);
    } else {
        lemma_callbacks_complete(w, n - 1, p);
        let prev = callbacks(w, n - 1);
        let k = choose|k: int| 0 <= k < prev.len() && (#[trigger] prev[k]).0 == w.entities[p].0;
        assert(cbs[k] == prev[k]);
    }
}

/// With no death callback due among the first `n` entities, none is listed.
pub proof fn lemma_no_callbacks(w: WorldView, n: int)
    requires
        0 <= n <= w.entities.len(),
        forall|p: int| 0 <= p < n ==> death_cb(w, #[trigger] w.entities[p].1) is None,
    ensures
        callbacks(w, n).len() == 0,
    decreases n,
{
    if n > 0 {
        lemma_no_callbacks(w, n - 1);
    }
}

/// After the first `i` callbacks ran, a callback can be due only for an
/// entity that had one at first and whose callback has not run yet; the
/// entities whose callbacks have not run are as they were.
proof fn lemma_deaths_prefix(w: WorldView, i: int)
    requires
        w.wf(),
        deaths_safe(w),
        player_callbacks_own(w),
        0 <= i <= callbacks(w, w.entities.len() as int).len(),
    ensures
        ({
            let cbs = callbacks(w, w.entities.len() as int);
            let v = after_deaths(w, cbs.take(i));
            &&& v.wf()
            &&& v.id_count == w.id_count + i
            &&& v.player == w.player
            &&& forall|j: u32| w.has(j) && (forall|k: int| 0 <= k < i ==> #[trigger] cbs[k].0 != j)
                ==> #[trigger] v.indexes_of(j) == w.indexes_of(j)
            &&& forall|j: u32| #[trigger] v.has(j) && death_cb(v, v.ix(j)) is Some ==> {
                &&& w.has(j)
                &&& death_cb(w, w.ix(j)) is Some
                &&& forall|k: int| 0 <= k < i ==> #[trigger] cbs[k].0 != j
            }
        }),
    decreases i,
{
    let cbs = callbacks(w, w.entities.len() as int);
    lemma_callbacks(w, w.entities.len() as int);
    if i == 0 {
        assert(cbs.take(0) =~= Seq::<(u32, DeathCallback)>::empty());
    } else {
        lemma_deaths_prefix(w, i - 1);
        let v = after_deaths(w, cbs.take(i - 1));
        let cb = cbs[i - 1];
        assert(cbs.take(i).drop_last() =~= cbs.take(i - 1));
        assert(cbs.take(i).last() == cb);
        let post = death_step(v, cb);
        assert(after_deaths(w, cbs.take(i)) == post);
        assert forall|k: int| 0 <= k < i - 1 implies #[trigger] cbs[k].0 != cb.0 by {
            assert(cbs[k].0 < cbs[i - 1].0);
        }
        assert(v.indexes_of(cb.0) == w.indexes_of(cb.0));
        assert(v.is_character(cb.0));
        let w1v = v.id_count + 1;
        match cb.1 {
            DeathCallback::Player => {
                assert(cb.0 == w.player.id);
                lemma_player_died(v);
                v.lemma_with_log("You died!"@, cfg::color_dark_red());
                let w1 = v.with_log("You died!"@, cfg::color_dark_red());
                w1.lemma_same_entities(post);
                let ci = v.ix(v.player.id).character.unwrap() as int;
                assert forall|j: u32| #[trigger] post.has(j) && death_cb(post, post.ix(j)) is Some implies {
                    &&& w.has(j)
                    &&& death_cb(w, w.ix(j)) is Some
                    &&& forall|k: int| 0 <= k < i ==> #[trigger] cbs[k].0 != j
                } by {
                    assert(w1.has(j));
                    if j == w1v {
                        assert(!v.has(j));
                        let q = choose|q: int| 0 <= q < w1.entities.len() && #[trigger] w1.entities[q].0 == j;
                        if q < v.entities.len() {
                            assert(v.entities[q].0 == j);
                        }
                        w1.lemma_indexes_at(q);
                        assert(false);
                    }
                    assert(v.has(j));
                    assert(post.indexes_of(j) == v.indexes_of(j));
                    let ix = v.ix(j);
                    if ix.character is Some && ix.character.unwrap() as int == ci {
                        assert(post.characters[ci].on_death == DeathCallback::Nothing);
                        assert(false);
                    }
                    assert(death_cb(v, v.ix(j)) is Some);
                    if j == cb.0 {
                        assert(false);
                    }
                }
                assert forall|j: u32| w.has(j) && (forall|k: int| 0 <= k < i ==> #[trigger] cbs[k].0 != j)
                    implies #[trigger] post.indexes_of(j) == w.indexes_of(j) by {
                    assert(forall|k: int| 0 <= k < i - 1 ==> #[trigger] cbs[k].0 != j);
                    assert(v.indexes_of(j) == w.indexes_of(j));
                    assert(v.has(j));
                }
            },
            _ => {
                assert(cb.1 != DeathCallback::Player);
                lemma_monster_died(v, cb.0);
                v.lemma_with_log(monster_death_msg(v.mobj_of(cb.0).name, v.char_of(cb.0).xp as int), cfg::color_orange());
                let w1 = v.with_log(monster_death_msg(v.mobj_of(cb.0).name, v.char_of(cb.0).xp as int), cfg::color_orange());
                let p = v.pos_of(cb.0);
                v.lemma_wf_indexes(cb.0);
                post.lemma_indexes_at(p);
                assert forall|j: u32| #[trigger] post.has(j) && death_cb(post, post.ix(j)) is Some implies {
                    &&& w.has(j)
                    &&& death_cb(w, w.ix(j)) is Some
                    &&& forall|k: int| 0 <= k < i ==> #[trigger] cbs[k].0 != j
                } by {
                    let q = choose|q: int| 0 <= q < post.entities.len() && #[trigger] post.entities[q].0 == j;
                    assert(w1.entities[q].0 == j);
                    if j == cb.0 {
                        assert(post.ix(j).character is None);
                        assert(false);
                    }
                    if q >= v.entities.len() {
                        assert(post.entities[q].1 == log_indexes_at(v));
                        post.lemma_indexes_at(q);
                        assert(false);
                    }
                    assert(v.entities[q].0 == j);
                    assert(v.has(j));
                    assert(post.indexes_of(j) == v.indexes_of(j));
                }
                assert forall|j: u32| w.has(j) && (forall|k: int| 0 <= k < i ==> #[trigger] cbs[k].0 != j)
                    implies #[trigger] post.indexes_of(j) == w.indexes_of(j) by {
                    assert(forall|k: int| 0 <= k < i - 1 ==> #[trigger] cbs[k].0 != j);
                    assert(v.indexes_of(j) == w.indexes_of(j));
                    assert(v.has(j));
                    assert(cbs[i - 1].0 != j);
                }
            },
        }
    }
}

/// The indexes of the next log message of `v`.
spec fn log_indexes_at(v: WorldView) -> Indexes {
    crate::engine::game::log_indexes(v.log.len() as int)
}

/// A second frame of the death system changes nothing: every callback that
/// was due has run, and none is due any more (where each callback of the
/// player's kind belongs to the player).
pub proof fn law_deaths_settle(w: WorldView)
    requires
        w.wf(),
        w.player.state == PlayerState::MakingTurn ==> deaths_safe(w) && player_callbacks_own(w),
    ensures
        death_system_step(death_system_step(w)) == death_system_step(w),
{
    if w.player.state == PlayerState::MakingTurn {
        let cbs = callbacks(w, w.entities.len() as int);
        lemma_deaths_prefix(w, cbs.len() as int);
        assert(cbs.take(cbs.len() as int) =~= cbs);
        let v = after_deaths(w, cbs);
        assert forall|p: int| 0 <= p < v.entities.len() implies death_cb(v, #[trigger] v.entities[p].1) is None by {
            v.lemma_indexes_at(p);
            let j = v.entities[p].0;
            if death_cb(v, v.entities[p].1) is Some {
                assert(v.has(j));
                assert(w.has(j));
                let q = w.pos_of(j);
                w.lemma_wf_indexes(j);
                w.lemma_indexes_at(q);
                lemma_callbacks_complete(w, w.entities.len() as int, q);
                let k = choose|k: int| 0 <= k < cbs.len() && (#[trigger] cbs[k]).0 == w.entities[q].0;
                assert(cbs[k].0 != j);
            }
        }
        lemma_no_callbacks(v, v.entities.len() as int);
        assert(callbacks(v, v.entities.len() as int) =~= Seq::<(u32, DeathCallback)>::empty());
    }
}

fn player_death(world: &mut World)
    requires
        old(world)@.wf(),
        old(world).id_count < u32::MAX,
        old(world)@.is_character(old(world)@.player.id),
    ensures
        final(world)@ == player_died(old(world)@),
{
    let ghost pre = world@;
    // the game ended!
    world.add_log(cfg::color_dark_red(), String::from_str("You died!"));
    proof {
        pre.lemma_with_log("You died!"@, cfg::color_dark_red());
        assert(world@.indexes_of(pre.player.id) == pre.indexes_of(pre.player.id));
        world@.lemma_wf_indexes(world.player.id);
    }
    // for added effect, transform the player into a corpse!
    let ix = world.get_indexes(world.player.id).unwrap();
    let si = ix.symbol.unwrap();
    let ci = ix.character.unwrap();
    let mut symbol = world.symbols[si];
    symbol.glyph = '\u{A3}';
    symbol.color = cfg::color_dark_red();
    world.symbols.set(si, symbol);
    let mut character = world.characters[ci];
    character.on_death = DeathCallback::Nothing;
    world.characters.set(ci, character);
    proof {
        assert(world@ == player_died(pre));
    }
}

fn monster_death(monster_id: u32, world: &mut World)
    requires
        old(world)@.wf(),
        old(world).id_count < u32::MAX,
        old(world)@.is_character(monster_id),
    ensures
        final(world)@ == monster_died(old(world)@, monster_id),
{
    let ghost pre = world@;
    let (name, xp) = match world.get_character(monster_id) {
        Some((_, mo, ch, _)) => (mo.name.clone(), ch.xp),
        None => {
            proof {
                assert(false);
            }
            return;
        },
    };
    let mut msg = name.clone();
    msg.append(" is dead! You gain ");
    msg.append(int_to_string(xp).as_str());
    msg.append(" experience points.");
    world.add_log(cfg::color_orange(), msg);
    proof {
        pre.lemma_with_log(monster_death_msg(name@, xp as int), cfg::color_orange());
        assert(world@.indexes_of(monster_id) == pre.indexes_of(monster_id));
        pre.lemma_wf_indexes(monster_id);
        world@.lemma_wf_indexes(monster_id);
    }
    let p = world.find_pos(monster_id).unwrap();
    let ix = world.entity_indexes[p].1;
    // transform it into a nasty corpse! it doesn't block, can't be
    // attacked and doesn't move
    let si = ix.symbol.unwrap();
    let mi = ix.map_object.unwrap();
    let mut symbol = world.symbols[si];
    symbol.glyph = '\u{A3}';
    symbol.color = cfg::color_dark_red();
    world.symbols.set(si, symbol);
    let mut new_name = String::from_str("remains of ");
    new_name.append(name.as_str());
    let ghost mos = world.map_objects@;
    world.map_objects[mi].block = false;
    world.map_objects[mi].name = new_name;
    world.entity_indexes.set(p, (monster_id, Indexes { character: None, ..ix }));
    proof {
        let want = monster_died(pre, monster_id);
        pre.lemma_indexes_at(pre.pos_of(monster_id));
        assert(world@.map_objects =~= want.map_objects);
        assert(world@.entities =~= want.entities);
        assert(world@ == want);
    }
}

/// Collects the death callbacks due, in order of id.
fn collect_callbacks(world: &World) -> (r: Vec<(u32, DeathCallback)>)
    requires
        world@.wf(),
    ensures
        r@ == callbacks(world@, world@.entities.len() as int),
{
    let mut r: Vec<(u32, DeathCallback)> = Vec::new();
    let mut i: usize = 0;
    while i < world.entity_indexes.len()
        invariant
            world@.wf(),
            i <= world@.entities.len(),
            r@ == callbacks(world@, i as int),
        decreases world@.entities.len() - i,
    {
        let (id, ix) = world.entity_indexes[i];
        proof {
            assert(world@.indexes_wf(world@.entities[i as int].1));
        }
        match (ix.symbol, ix.map_object, ix.character, ix.ai) {
            (Some(_), Some(_), Some(ci), Some(_)) => {
                let c = world.characters[ci];
                if !c.alive && c.on_death != DeathCallback::Nothing {
                    r.push((id, c.on_death));
                }
            },
            _ => {},
        }
        i = i + 1;
    }
    r
}

pub fn update(world: &mut World)
    requires
        old(world)@.wf(),
        old(world)@.player.state == PlayerState::MakingTurn ==> deaths_safe(old(world)@),
    ensures
        final(world)@.wf(),
        final(world)@ == death_system_step(old(world)@),
{
    if world.player.state != PlayerState::MakingTurn {
        return;
    }
    let ghost pre = world@;
    let callbacks = collect_callbacks(world);
    let ghost cbs = callbacks@;
    proof {
        lemma_callbacks(pre, pre.entities.len() as int);
    }
    let mut i: usize = 0;
    while i < callbacks.len()
        invariant
            pre.wf(),
            deaths_safe(pre),
            cbs == callbacks@,
            cbs == crate::systems::death::callbacks(pre, pre.entities.len() as int),
            i <= cbs.len(),
            world@ == after_deaths(pre, cbs.take(i as int)),
            world@.wf(),
            world@.id_count == pre.id_count + i,
            world@.player == pre.player,
            forall|j: u32| pre.has(j) && (forall|k: int| 0 <= k < i ==> #[trigger] cbs[k].0 != j || cbs[k].1 == DeathCallback::Player)
                ==> #[trigger] world@.indexes_of(j) == pre.indexes_of(j),
            forall|k: int| 0 <= k < cbs.len() ==> {
                let cb = #[trigger] cbs[k];
                &&& pre.is_character(cb.0)
                &&& death_cb(pre, pre.ix(cb.0)) == Some(cb.1)
                &&& cb.1 != DeathCallback::Nothing
            },
            forall|k1: int, k2: int| 0 <= k1 < k2 < cbs.len() ==> (#[trigger] cbs[k1]).0 < (#[trigger] cbs[k2]).0,
        decreases cbs.len() - i,
    {
        let (id, callback) = callbacks[i];
        let ghost w = world@;
        proof {
            assert(cbs.take(i as int + 1).drop_last() =~= cbs.take(i as int));
            assert(forall|k: int| 0 <= k < i ==> cbs[k].0 < id);
        }
        match callback {
            DeathCallback::Player => {
                proof {
                    let pid = pre.player.id;
                    assert(cbs[i as int].1 == DeathCallback::Player);
                    // the player has not been turned into remains before
                    assert forall|k: int| 0 <= k < i implies #[trigger] cbs[k].0 != pid || cbs[k].1 == DeathCallback::Player by {
                        if cbs[k].0 == pid && cbs[k].1 != DeathCallback::Player {
                            assert(death_cb(pre, pre.ix(pid)) == Some(cbs[k].1));
                        }
                    }
                    assert(world@.indexes_of(pid) == pre.indexes_of(pid));
                    lemma_player_died(w);
                }
                player_death(world);
            },
            _ => {
                proof {
                    assert forall|k: int| 0 <= k < i implies #[trigger] cbs[k].0 != id || cbs[k].1 == DeathCallback::Player by {
                        assert(cbs[k].0 < cbs[i as int].0);
                    }
                    assert(world@.indexes_of(id) == pre.indexes_of(id));
                    lemma_monster_died(w, id);
                }
                monster_death(id, world);
            },
        }
        proof {
            assert forall|j: u32| pre.has(j) && (forall|k: int| 0 <= k < i + 1 ==> #[trigger] cbs[k].0 != j || cbs[k].1 == DeathCallback::Player)
                implies #[trigger] world@.indexes_of(j) == pre.indexes_of(j) by {
                assert(cbs[i as int].0 != j || cbs[i as int].1 == DeathCallback::Player);
                assert(w.indexes_of(j) == pre.indexes_of(j));
                if pre.has(j) {
                    assert(w.has(j)) by {
                        let q = pre.pos_of(j);
                        pre.lemma_indexes_at(q);
                    }
                }
            }
        }
        i = i + 1;
    }
    proof {
        assert(cbs.take(cbs.len() as int) =~= cbs);
    }
}

/// Whether a frame of the death system can run.
pub fn is_ready(world: &World) -> (r: bool)
    requires
        world@.wf(),
    ensures
        r == (world@.player.state == PlayerState::MakingTurn ==> deaths_safe(world@)),
{
    if world.player.state != PlayerState::MakingTurn {
        return true;
    }
    let cbs = collect_callbacks(world);
    proof {
        lemma_callbacks(world@, world@.entities.len() as int);
    }
    if world.id_count as u128 + cbs.len() as u128 > u32::MAX as u128 {
        return false;
    }
    let mut player_dies = false;
    let mut i: usize = 0;
    while i < cbs.len()
        invariant
            i <= cbs@.len(),
            player_dies <==> exists|k: int| 0 <= k < i && #[trigger] cbs@[k].1 == DeathCallback::Player,
        decreases cbs@.len() - i,
    {
        if cbs[i].1 == DeathCallback::Player {
            player_dies = true;
        }
        i = i + 1;
    }
    if !player_dies {
        return true;
    }
    match world.get_character(world.player.id) {
        Some((_, _, c, _)) => {
            proof {
                world@.lemma_wf_indexes(world@.player.id);
            }
            !(!c.alive && c.on_death == DeathCallback::Monster)
        },
        None => false,
    }
}

} // verus!
