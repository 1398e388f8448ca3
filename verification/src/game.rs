//! What fighters and items do to each other.
use crate::cfg;
use crate::cmtp::{
    slot_name, AiOption, Character, DialogBox, Equipment, LogMessage, MapCell, MapObject, OwnedItem, Slot, Symbol,
};
use crate::engine::entity::{opt_view, BuilderView, Indexes};
use crate::engine::game::{on_grid, Stat, World, WorldView};
use crate::text::{int_text, int_to_string};
use vstd::prelude::*;

verus! {

/// `c` after taking `damage` (ignored unless positive); it dies at 0 hit points.
pub open spec fn damaged(c: Character, damage: int) -> Character {
    let hp = if damage > 0 {
        c.hp - damage
    } else {
        c.hp as int
    };
    Character { hp: hp as i32, alive: if hp <= 0 { false } else { c.alive }, ..c }
}

/// Applies damage to a fighter; returns the experience it yields if it dies.
pub fn take_damage(target: &mut Character, damage: i32) -> (r: Option<i32>)
    requires
        damage > 0 ==> old(target).hp - damage >= i32::MIN,
    ensures
        *final(target) == damaged(*old(target), damage as int),
        r == (if final(target).hp <= 0 { Some(old(target).xp) } else { None::<i32> }),
{
    // apply damage if possible
    if damage > 0 {
        target.hp = target.hp - damage;
    }
    // check for death
    if target.hp <= 0 {
        target.alive = false;
        Some(target.xp)
    } else {
        None
    }
}

pub open spec fn attack_msg(attacker: Seq<char>, target: Seq<char>, damage: int) -> Seq<char> {
    attacker + " attacks "@ + target + " for "@ + int_text(damage) + " hit points."@
}

pub open spec fn no_effect_msg(attacker: Seq<char>, target: Seq<char>) -> Seq<char> {
    attacker + " attacks "@ + target + " but it has no effect!"@
}

/// The damage `attacker` does to `target`.
pub open spec fn attack_damage(w: WorldView, attacker: u32, target: u32) -> int {
    w.stat(attacker, Stat::Power) - w.stat(target, Stat::Defense)
}

/// The fighters after `attacker` hits `target`: the target takes the damage
/// and, if it dies, the attacker gains its experience.
pub open spec fn attacked_chars(w: WorldView, attacker: u32, target: u32) -> Seq<Character> {
    let damage = attack_damage(w, attacker, target);
    if damage > 0 {
        let ti = w.ix(target).character.unwrap() as int;
        let ai = w.ix(attacker).character.unwrap() as int;
        let tc = damaged(w.characters[ti], damage);
        let chars = w.characters.update(ti, tc);
        if tc.hp <= 0 {
            chars.update(ai, Character { xp: (chars[ai].xp + tc.xp) as i32, ..chars[ai] })
        } else {
            chars
        }
    } else {
        w.characters
    }
}

/// The message an attack is reported with.
pub open spec fn attack_report(w: WorldView, attacker: u32, target: u32) -> Seq<char> {
    let damage = attack_damage(w, attacker, target);
    let an = w.mobj_of(attacker).name;
    let tn = w.mobj_of(target).name;
    if damage > 0 {
        attack_msg(an, tn, damage)
    } else {
        no_effect_msg(an, tn)
    }
}

/// The world after `attacker` hits `target`.
pub open spec fn attacked(w: WorldView, attacker: u32, target: u32) -> WorldView {
    WorldView {
        characters: attacked_chars(w, attacker, target),
        ..w.with_log(attack_report(w, attacker, target), cfg::color_lightest_grey())
    }
}

/// The numbers of an attack stay within `i32`.
pub open spec fn attack_fits(w: WorldView, attacker: u32, target: u32) -> bool {
    let damage = attack_damage(w, attacker, target);
    let ti = w.ix(target).character.unwrap() as int;
    let ai = w.ix(attacker).character.unwrap() as int;
    &&& w.stat_fits(attacker, Stat::Power)
    &&& w.stat_fits(target, Stat::Defense)
    &&& i32::MIN <= damage <= i32::MAX
    &&& damage > 0 ==> w.characters[ti].hp - damage >= i32::MIN
    &&& (damage > 0 && w.characters[ti].hp - damage <= 0) ==> {
        let chars = w.characters.update(ti, damaged(w.characters[ti], damage));
        i32::MIN <= chars[ai].xp + w.characters[ti].xp <= i32::MAX
    }
}

/// Fighters of a world whose numbers are bounded can fight.
pub proof fn lemma_attack_fits(w: WorldView, attacker: u32, target: u32)
    requires
        w.wf(),
        w.stats_bounded(),
        w.vitals_bounded(),
        w.is_fighter(attacker),
        w.is_fighter(target),
    ensures
        attack_fits(w, attacker, target),
        -0x4000_0000 <= attack_damage(w, attacker, target) <= 0x4000_0000,
{
    w.lemma_stat_small(attacker, Stat::Power);
    w.lemma_stat_small(target, Stat::Defense);
    w.lemma_wf_indexes(attacker);
    w.lemma_wf_indexes(target);
    let ti = w.ix(target).character.unwrap() as int;
    let ai = w.ix(attacker).character.unwrap() as int;
    assert(-crate::engine::game::MAX_HP_VALUE <= w.characters[ti].hp);
    assert(-crate::engine::game::MAX_XP_VALUE <= w.characters[ti].xp <= crate::engine::game::MAX_XP_VALUE);
    assert(-crate::engine::game::MAX_XP_VALUE <= w.characters[ai].xp <= crate::engine::game::MAX_XP_VALUE);
}

/// Whether the numbers of an attack of `attacker` on `target` stay within
/// `i32`.
pub fn check_attack_fits(world: &World, attacker: u32, target: u32) -> (r: bool)
    requires
        world@.wf(),
        world@.is_fighter(attacker),
        world@.is_fighter(target),
    ensures
        r == attack_fits(world@, attacker, target),
{
    if !world.check_stat_fits(attacker, Stat::Power) || !world.check_stat_fits(target, Stat::Defense) {
        return false;
    }
    let damage = world.power(attacker) as i64 - world.defense(target) as i64;
    if damage < i32::MIN as i64 || damage > i32::MAX as i64 {
        return false;
    }
    if damage <= 0 {
        return true;
    }
    let aix = world.get_indexes(attacker).unwrap();
    let tix = world.get_indexes(target).unwrap();
    proof {
        world@.lemma_wf_indexes(attacker);
        world@.lemma_wf_indexes(target);
    }
    let ai = aix.character.unwrap();
    let ti = tix.character.unwrap();
    let tc = world.characters[ti];
    let hp = tc.hp as i64 - damage;
    if hp < i32::MIN as i64 {
        return false;
    }
    if hp > 0 {
        return true;
    }
    let axp = if ai == ti {
        tc.xp
    } else {
        world.characters[ai].xp
    };
    let sum = axp as i64 + tc.xp as i64;
    i32::MIN as i64 <= sum && sum <= i32::MAX as i64
}

/// `attacker` hits `target` with its power against the target's defense.
pub fn attack_by(attacker_id: u32, target_id: u32, world: &mut World)
    requires
        old(world)@.wf(),
        old(world).id_count < u32::MAX,
        old(world)@.is_fighter(attacker_id),
        old(world)@.is_fighter(target_id),
        attack_fits(old(world)@, attacker_id, target_id),
    ensures
        final(world)@.wf(),
        final(world)@ == attacked(old(world)@, attacker_id, target_id),
{
    let ghost pre = world@;
    let aix = world.get_indexes(attacker_id).unwrap();
    let tix = world.get_indexes(target_id).unwrap();
    proof {
        pre.lemma_wf_indexes(attacker_id);
        pre.lemma_wf_indexes(target_id);
    }
    let attacker_name = world.map_objects[aix.map_object.unwrap()].name.clone();
    let target_name = world.map_objects[tix.map_object.unwrap()].name.clone();
    // a simple formula for attack damage
    let damage = world.power(attacker_id) - world.defense(target_id);
    let mut msg = attacker_name;
    msg.append(" attacks ");
    msg.append(target_name.as_str());
    if damage > 0 {
        msg.append(" for ");
        msg.append(int_to_string(damage).as_str());
        msg.append(" hit points.");
        world.add_log(cfg::color_lightest_grey(), msg);
        let ai = aix.character.unwrap();
        let ti = tix.character.unwrap();
        let mut target = world.characters[ti];
        let r = take_damage(&mut target, damage);
        world.characters.set(ti, target);
        if let Some(xp) = r {
            // yield experience to the attacker
            let mut attacker = world.characters[ai];
            attacker.xp = attacker.xp + xp;
            world.characters.set(ai, attacker);
        }
    } else {
        msg.append(" but it has no effect!");
        world.add_log(cfg::color_lightest_grey(), msg);
    }
    proof {
        assert(world@.characters =~= attacked_chars(pre, attacker_id, target_id));
        assert(world@ == attacked(pre, attacker_id, target_id));
    }
}

/// `c` after healing `amount`, without going over `max_hp`.
pub open spec fn healed(c: Character, amount: int, max_hp: int) -> Character {
    let hp = if c.hp + amount > max_hp {
        max_hp
    } else {
        c.hp + amount
    };
    Character { hp: hp as i32, ..c }
}

/// The world after `id` heals `amount`.
pub open spec fn healed_world(w: WorldView, id: u32, amount: int) -> WorldView {
    WorldView {
        characters: w.characters.update(
            w.ix(id).character.unwrap() as int,
            healed(w.char_of(id), amount, w.stat(id, Stat::MaxHp)),
        ),
        ..w
    }
}

/// Heals `id` by the given amount, without going over its maximum.
pub fn heal(id: u32, amount: i32, world: &mut World)
    requires
        old(world)@.wf(),
        old(world)@.is_fighter(id),
        old(world)@.stat_fits(id, Stat::MaxHp),
        i32::MIN <= old(world)@.char_of(id).hp + amount <= i32::MAX,
    ensures
        final(world)@.wf(),
        final(world)@ == healed_world(old(world)@, id, amount as int),
{
    let ghost pre = world@;
    let max_hp = world.max_hp(id);
    let ix = world.get_indexes(id).unwrap();
    proof {
        world@.lemma_wf_indexes(id);
    }
    let ci = ix.character.unwrap();
    let mut character = world.characters[ci];
    character.hp = character.hp + amount;
    if character.hp > max_hp {
        character.hp = max_hp;
    }
    world.characters.set(ci, character);
    proof {
        assert(world@ == healed_world(pre, id, amount as int));
    }
}

pub open spec fn equip_msg(name: Seq<char>, slot: Slot) -> Seq<char> {
    "Equipped "@ + name + " on "@ + slot_name(slot) + "."@
}

pub open spec fn cannot_equip_msg(name: Seq<char>) -> Seq<char> {
    "Can't equip "@ + name + " because it's not an Equipment."@
}

/// The world after equipping `id`: equipment is put on (with a message) unless
/// it is on already; anything else is refused with a message.
pub open spec fn equipped(w: WorldView, id: u32) -> WorldView {
    let name = w.mobj_of(id).name;
    match w.ix(id).equipment {
        Some(k) => {
            let e = w.equipments[k as int];
            if !e.equipped {
                WorldView {
                    equipments: w.equipments.update(k as int, Equipment { equipped: true, ..e }),
                    ..w.with_log(equip_msg(name, e.slot), cfg::color_green())
                }
            } else {
                w
            }
        },
        None => w.with_log(cannot_equip_msg(name), cfg::color_orange()),
    }
}

/// Equips the item `id` and shows a message about it.
pub fn equip(id: u32, world: &mut World)
    requires
        old(world)@.wf(),
        old(world).id_count < u32::MAX,
        old(world)@.is_named(id),
    ensures
        final(world)@.wf(),
        final(world)@ == equipped(old(world)@, id),
{
    let ghost pre = world@;
    let ix = world.get_indexes(id).unwrap();
    proof {
        world@.lemma_wf_indexes(id);
    }
    let name = world.map_objects[ix.map_object.unwrap()].name.clone();
    if let Some(index) = ix.equipment {
        if !world.equipments[index].equipped {
            let mut e = world.equipments[index];
            e.equipped = true;
            let mut msg = String::from_str("Equipped ");
            msg.append(name.as_str());
            msg.append(" on ");
            msg.append(e.slot.to_string().as_str());
            msg.append(".");
            world.add_log(cfg::color_green(), msg);
            world.equipments.set(index, e);
        }
    } else {
        let mut msg = String::from_str("Can't equip ");
        msg.append(name.as_str());
        msg.append(" because it's not an Equipment.");
        world.add_log(cfg::color_orange(), msg);
    }
    proof {
        assert(world@ == equipped(pre, id));
    }
}

pub open spec fn dequip_msg(name: Seq<char>, slot: Slot) -> Seq<char> {
    "Dequipped "@ + name + " from "@ + slot_name(slot) + "."@
}

pub open spec fn cannot_dequip_msg(name: Seq<char>) -> Seq<char> {
    "Can't dequip "@ + name + " because it's not an Equipment."@
}

/// The world after taking `id` off: equipment worn is taken off (with a
/// message); anything else that is not equipment is refused with a message.
pub open spec fn dequipped(w: WorldView, id: u32) -> WorldView {
    let name = w.mobj_of(id).name;
    match w.ix(id).equipment {
        Some(k) => {
            let e = w.equipments[k as int];
            if e.equipped {
                WorldView {
                    equipments: w.equipments.update(k as int, Equipment { equipped: false, ..e }),
                    ..w.with_log(dequip_msg(name, e.slot), cfg::color_dark_sky())
                }
            } else {
                w
            }
        },
        None => w.with_log(cannot_dequip_msg(name), cfg::color_orange()),
    }
}

/// Takes the item `id` off and shows a message about it.
pub fn dequip(id: u32, world: &mut World)
    requires
        old(world)@.wf(),
        old(world).id_count < u32::MAX,
        old(world)@.is_named(id),
    ensures
        final(world)@.wf(),
        final(world)@ == dequipped(old(world)@, id),
{
    let ghost pre = world@;
    let ix = world.get_indexes(id).unwrap();
    proof {
        world@.lemma_wf_indexes(id);
    }
    let name = world.map_objects[ix.map_object.unwrap()].name.clone();
    if let Some(index) = ix.equipment {
        if world.equipments[index].equipped {
            let mut e = world.equipments[index];
            e.equipped = false;
            let mut msg = String::from_str("Dequipped ");
            msg.append(name.as_str());
            msg.append(" from ");
            msg.append(e.slot.to_string().as_str());
            msg.append(".");
            world.add_log(cfg::color_dark_sky(), msg);
            world.equipments.set(index, e);
        }
    } else {
        let mut msg = String::from_str("Can't dequip ");
        msg.append(name.as_str());
        msg.append(" because it's not an Equipment.");
        world.add_log(cfg::color_orange(), msg);
    }
    proof {
        assert(world@ == dequipped(pre, id));
    }
}

/// Where `id` ends up after `move_by(id, dx, dy)`: at the destination, unless
/// the map cell at the destination's index or a blocking object standing at
/// the destination is in the way.
pub open spec fn move_target(w: WorldView, id: u32, dx: int, dy: int) -> (int, int) {
    let s = w.sym_of(id);
    let x = s.x + dx;
    let y = s.y + dy;
    if !w.is_blocked(x, y) {
        (x, y)
    } else {
        (s.x as int, s.y as int)
    }
}

/// The world after `move_by(id, dx, dy)`.
pub open spec fn moved_by(w: WorldView, id: u32, dx: int, dy: int) -> WorldView {
    let (x, y) = move_target(w, id, dx, dy);
    let k = w.ix(id).symbol.unwrap() as int;
    WorldView { symbols: w.symbols.update(k, Symbol { x: x as i32, y: y as i32, ..w.symbols[k] }), ..w }
}

/// Moves `id` by the given amount if the destination is free. The map cell
/// looked at is the one at the destination's index `y * MAP_WIDTH + x`, which
/// must lie in the map: a step over the left or right edge looks at the cell
/// at the other end of the row above or below, and moves there in coordinates
/// off the map when that cell is free.
pub fn move_by(id: u32, dx: i32, dy: i32, world: &mut World)
    requires
        old(world)@.wf(),
        old(world)@.map_ready(),
        old(world)@.has_symbol(id),
        i32::MIN <= old(world)@.sym_of(id).x + dx <= i32::MAX,
        i32::MIN <= old(world)@.sym_of(id).y + dy <= i32::MAX,
        on_grid(old(world)@.sym_of(id).x + dx, old(world)@.sym_of(id).y + dy),
    ensures
        final(world)@ == moved_by(old(world)@, id, dx as int, dy as int),
        final(world)@.wf(),
{
    let ghost pre = world@;
    let ix = world.get_indexes(id).unwrap();
    proof {
        world@.lemma_wf_indexes(id);
    }
    let si = ix.symbol.unwrap();
    let sym = world.symbols[si];
    let x = sym.x + dx;
    let y = sym.y + dy;
    if !world.is_blocked(x, y) {
        let mut s = sym;
        s.x = x;
        s.y = y;
        world.symbols.set(si, s);
        proof {
            assert(world@ == moved_by(pre, id, dx as int, dy as int));
            assert forall|i: int| 0 <= i < world@.symbols.len() implies on_grid(
                #[trigger] world@.symbols[i].x as int,
                world@.symbols[i].y as int,
            ) by {
                if i != si as int {
                    assert(world@.symbols[i] == pre.symbols[i]);
                }
            }
            pre.lemma_same_entities(world@);
        }
    } else {
        proof {
            assert(world@.symbols =~= moved_by(pre, id, dx as int, dy as int).symbols);
        }
    }
}

/// Healing never raises hit points above the maximum: the fighter ends with
/// the smaller of its hit points plus the amount and its maximum.
pub proof fn law_heal_capped(w: WorldView, id: u32, amount: int)
    requires
        w.wf(),
        w.is_fighter(id),
        w.stat_fits(id, Stat::MaxHp),
        i32::MIN <= w.char_of(id).hp + amount <= i32::MAX,
    ensures
        ({
            let c = healed_world(w, id, amount).characters[w.ix(id).character.unwrap() as int];
            let max = w.stat(id, Stat::MaxHp);
            &&& c.hp <= max
            &&& c.hp == (if w.char_of(id).hp + amount > max { max } else { w.char_of(id).hp + amount })
            &&& c.xp == w.char_of(id).xp
            &&& c.alive == w.char_of(id).alive
        }),
{
    w.lemma_wf_indexes(id);
}

/// Taking off an item right after putting it on gives the equipment back as
/// it was; the log tells of both.
pub proof fn law_equip_then_dequip(w: WorldView, id: u32)
    requires
        w.wf(),
        w.id_count + 2 <= u32::MAX,
        w.is_named(id),
        w.eqp_of(id) matches Some(e) && !e.equipped,
    ensures
        ({
            let post = dequipped(equipped(w, id), id);
            let e = w.eqp_of(id).unwrap();
            let name = w.mobj_of(id).name;
            &&& post.equipments == w.equipments
            &&& post.log == w.log.push((equip_msg(name, e.slot), cfg::color_green())).push(
                (dequip_msg(name, e.slot), cfg::color_dark_sky()),
            )
            &&& post.characters == w.characters
            &&& post.items == w.items
        }),
{
    let e = w.eqp_of(id).unwrap();
    let name = w.mobj_of(id).name;
    let k = w.ix(id).equipment.unwrap() as int;
    w.lemma_wf_indexes(id);
    let w1 = equipped(w, id);
    let wl = w.with_log(equip_msg(name, e.slot), cfg::color_green());
    w.lemma_with_log(equip_msg(name, e.slot), cfg::color_green());
    assert(wl.indexes_of(id) == w.indexes_of(id));
    wl.lemma_same_entities(w1);
    assert(w1.indexes_of(id) == w.indexes_of(id));
    assert(w1.mobj_of(id) == w.mobj_of(id));
    assert(w1.equipments =~= w.equipments.update(k, Equipment { equipped: true, ..e }));
    assert(dequipped(w1, id).equipments =~= w.equipments);
}

/// A move never ends on a blocked cell: the mover stays where it is, or
/// lands at the destination, whose cell (by its index) is free and which no
/// blocking object holds; the mover still names a cell of the map.
pub proof fn law_move_lands_free(w: WorldView, id: u32, dx: int, dy: int)
    requires
        w.wf(),
        w.has_symbol(id),
        on_grid(w.sym_of(id).x + dx, w.sym_of(id).y + dy),
    ensures
        ({
            let (x, y) = move_target(w, id, dx, dy);
            let s = w.sym_of(id);
            &&& on_grid(x, y)
            &&& ((x, y) == (s.x as int, s.y as int) || !w.is_blocked(x, y))
            &&& ((x, y) != (s.x as int, s.y as int) ==> x == s.x + dx && y == s.y + dy)
        }),
{
    w.lemma_wf_indexes(id);
    w.lemma_symbol_on_grid(w.ix(id).symbol.unwrap() as int);
}

/// Where each component of an entity is stored.
pub type EntityIndexes = Indexes;

impl World {
    /// Stores an entity made of the given components under a fresh id, which
    /// is returned.
    pub fn create_entity(
        &mut self,
        symbol: Option<Symbol>,
        map_cell: Option<MapCell>,
        map_object: Option<MapObject>,
        character: Option<Character>,
        ai: Option<AiOption>,
        item: Option<OwnedItem>,
        equipment: Option<Equipment>,
        log_message: Option<LogMessage>,
        dialog: Option<DialogBox>,
    ) -> (id: u32)
        requires
            old(self)@.wf(),
            old(self).id_count < u32::MAX,
            symbol matches Some(s) ==> on_grid(s.x as int, s.y as int),
        ensures
            final(self)@.wf(),
            id == final(self).id_count,
            final(self)@ == (BuilderView {
                symbol,
                map_cell,
                map_object: opt_view(map_object),
                character,
                ai,
                item,
                equipment,
                ammo: None,
                log_message: opt_view(log_message),
                dialog: opt_view(dialog),
            }).stored_in(old(self)@),
    {
        let b = crate::engine::entity::Builder {
            symbol,
            map_cell,
            map_object,
            character,
            ai,
            item,
            equipment,
            ammo: None,
            log_message,
            dialog,
        };
        b.create(self)
    }
}

} // verus!
