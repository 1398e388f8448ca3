use crate::cfg;
use crate::cmtp::{slot_name, Ai, AiOption, Character, DialogBox, DialogKind, DialogView, Equipment, Item, Slot, MapObjectView, OwnedItem, PlayerAction, PlayerState, PlayerView, Symbol};
use crate::engine::entity::Indexes;
use crate::engine::game::{self, first, is_first, lemma_first, Stat, World, WorldView};
use crate::game::{damaged, dequipped, equipped, healed_world, take_damage};
use crate::systems::player_action::target_pred;
use crate::text::{int_text, int_to_string};
use vstd::prelude::*;

verus! {

/// What became of an item that was used.
#[derive(Clone, Copy, Debug, PartialEq, Eq, Structural)]
pub enum UseResult {
    UsedUp,
    UsedAndKept,
    Cancelled,
    NeedTargeting,
}

/// The square of the distance between two positions.
pub open spec fn sq_dist(x1: int, y1: int, x2: int, y2: int) -> int {
    (x2 - x1) * (x2 - x1) + (y2 - y1) * (y2 - y1)
}

/// The square of the distance between two positions.
fn sq_distance(x1: i32, y1: i32, x2: i32, y2: i32) -> (r: i128)
    ensures
        r == sq_dist(x1 as int, y1 as int, x2 as int, y2 as int),
        0 <= r,
{
    let dx = x2 as i128 - x1 as i128;
    let dy = y2 as i128 - y1 as i128;
    assert(0 <= dx * dx <= 0x1_0000_0000_0000_0000) by (nonlinear_arith)
        requires
            -0x1_0000_0000 <= dx <= 0x1_0000_0000,
    ;
    assert(0 <= dy * dy <= 0x1_0000_0000_0000_0000) by (nonlinear_arith)
        requires
            -0x1_0000_0000 <= dy <= 0x1_0000_0000,
    ;
    dx * dx + dy * dy
}

/// The square of a range, in a type wide enough for it.
fn sq_range(r: i32) -> (s: i128)
    ensures
        s == r * r,
        0 <= s <= 0x1_0000_0000_0000_0000,
{
    let r128 = r as i128;
    assert(0 <= r128 * r128 <= 0x1_0000_0000_0000_0000) by (nonlinear_arith)
        requires
            -0x1_0000_0000 <= r128 <= 0x1_0000_0000,
    ;
    r128 * r128
}

/// The player's position.
pub open spec fn player_pos(w: WorldView) -> (int, int) {
    let s = w.sym_of(w.player.id);
    (s.x as int, s.y as int)
}

/// The clicked cell `(x, y)` is in the player's field of view and, if there
/// is a range, within it (the distance compared by its square).
pub open spec fn spec_target_tile(w: WorldView, max_range: Option<int>, x: int, y: int) -> bool {
    let (px, py) = player_pos(w);
    &&& w.map[y * cfg::MAP_WIDTH + x].in_fov
    &&& (max_range matches Some(r) ==> 0 <= r && sq_dist(px, py, x, y) <= r * r)
}

/// The clicked position names a cell of the map vector: its index
/// `y * MAP_WIDTH + x`, computed in `i32`, lies within the map.
pub open spec fn click_ok(w: WorldView, x: int, y: int) -> bool {
    &&& i32::MIN <= y * cfg::MAP_WIDTH <= i32::MAX
    &&& i32::MIN <= y * cfg::MAP_WIDTH + x <= i32::MAX
    &&& 0 <= y * cfg::MAP_WIDTH + x < w.map.len()
}

/// Returns true if the clicked tile is in the player's field of view
/// (and within `max_range`, if one is given).
fn target_tile(world: &World, max_range: Option<i32>, x: i32, y: i32) -> (r: bool)
    requires
        world@.wf(),
        world@.is_character(world@.player.id),
        click_ok(world@, x as int, y as int),
    ensures
        r == spec_target_tile(world@, match max_range { Some(v) => Some(v as int), None => None }, x as int, y as int),
{
    let player_symbol = world.player_sym();
    let (px, py) = (player_symbol.x, player_symbol.y);
    proof {
        world@.lemma_wf_indexes(world@.player.id);
        world@.lemma_symbol_on_grid(world@.ix(world@.player.id).symbol.unwrap() as int);
    }
    let target_index_in_map = (y * cfg::MAP_WIDTH + x) as usize;
    if !world.map[target_index_in_map].in_fov {
        return false;
    }
    match max_range {
        Some(r) => 0 <= r && sq_distance(px, py, x, y) <= sq_range(r),
        None => true,
    }
}

/// The first character other than the player at the clicked cell, if the
/// cell is a valid target.
pub open spec fn spec_target_monster(w: WorldView, max_range: Option<int>, x: int, y: int) -> Option<u32> {
    if spec_target_tile(w, max_range, x, y) {
        first(w.entities, target_pred(w, x, y))
    } else {
        None
    }
}

/// Returns a clicked monster inside the field of view up to a range, or None.
fn target_monster(world: &World, max_range: Option<i32>, x: i32, y: i32) -> (r: Option<u32>)
    requires
        world@.wf(),
        world@.is_character(world@.player.id),
        click_ok(world@, x as int, y as int),
    ensures
        r == spec_target_monster(world@, match max_range { Some(v) => Some(v as int), None => None }, x as int, y as int),
        r matches Some(id) ==> world@.is_character(id) && id != world@.player.id,
{
    let ghost mr = match max_range { Some(v) => Some(v as int), None => None };
    if target_tile(world, max_range, x, y) {
        let ghost pred = target_pred(world@, x as int, y as int);
        let mut i: usize = 0;
        while i < world.entity_indexes.len()
            invariant
                world@.wf(),
                mr == match max_range { Some(v) => Some(v as int), None => None },
                spec_target_tile(world@, mr, x as int, y as int),
                pred == target_pred(world@, x as int, y as int),
                i <= world@.entities.len(),
                forall|q: int| 0 <= q < i ==> !pred(#[trigger] world@.entities[q]),
            decreases world@.entities.len() - i,
        {
            let (id, ix) = world.entity_indexes[i];
            proof {
                assert(world@.indexes_wf(world@.entities[i as int].1));
            }
            match (ix.symbol, ix.map_object, ix.character, ix.ai) {
                (Some(s), Some(_), Some(_), Some(_)) => {
                    if world.symbols[s].x == x && world.symbols[s].y == y && id != world.player.id {
                        proof {
                            assert(pred(world@.entities[i as int]));
                            lemma_first(world@.entities, pred, Some(id));
                            world@.lemma_indexes_at(i as int);
                        }
                        return Some(id);
                    }
                },
                _ => {},
            }
            i = i + 1;
        }
        proof {
            lemma_first(world@.entities, pred, None);
        }
        None
    } else {
        None
    }
}

/// The entity `e` is a character other than the player, in view.
pub open spec fn enemy_in_view(w: WorldView, e: (u32, Indexes)) -> bool {
    &&& e.1.symbol is Some
    &&& e.1.map_object is Some
    &&& e.1.character is Some
    &&& e.1.ai is Some
    &&& e.0 != w.player.id
    &&& w.cell_at(w.symbols[e.1.symbol.unwrap() as int].x as int, w.symbols[e.1.symbol.unwrap() as int].y as int).in_fov
}

/// Scanning the first `n` entities for the enemy in view closest to the player
/// (the first one at the smallest distance), starting from a squared distance
/// `bound`: the enemy found and its squared distance.
pub open spec fn closest_scan(w: WorldView, n: int, bound: int) -> (Option<u32>, int)
    decreases n,
{
    if n <= 0 {
        (None, bound)
    } else {
        let (best, bd) = closest_scan(w, n - 1, bound);
        let e = w.entities[n - 1];
        if enemy_in_view(w, e) {
            let s = w.symbols[e.1.symbol.unwrap() as int];
            let (px, py) = player_pos(w);
            let d = sq_dist(px, py, s.x as int, s.y as int);
            if d < bd {
                (Some(e.0), d)
            } else {
                (best, bd)
            }
        } else {
            (best, bd)
        }
    }
}

/// The squared distance an enemy must be nearer than to be found within
/// `max_range` (none is, for a negative range).
pub open spec fn range_bound(max_range: int) -> int {
    if max_range >= 0 {
        max_range * max_range + 1
    } else {
        0
    }
}

/// The closest enemy in view, at most `max_range` away.
pub open spec fn spec_closest_monster(w: WorldView, max_range: int) -> Option<u32> {
    closest_scan(w, w.entities.len() as int, range_bound(max_range)).0
}

/// Some character other than the player is in view.
pub open spec fn enemy_seen(w: WorldView) -> bool {
    exists|i: int| 0 <= i < w.entities.len() && enemy_in_view(w, #[trigger] w.entities[i])
}

/// With no enemy in view, none is found, wherever the player stands.
pub proof fn lemma_no_enemy_seen(w: WorldView, n: int, bound: int)
    requires
        0 <= n <= w.entities.len(),
        !enemy_seen(w),
    ensures
        closest_scan(w, n, bound) == (None::<u32>, bound),
    decreases n,
{
    if n > 0 {
        lemma_no_enemy_seen(w, n - 1, bound);
        assert(!enemy_in_view(w, w.entities[n - 1]));
    }
}

/// Whether some character other than the player is in view.
fn any_enemy_seen(world: &World) -> (r: bool)
    requires
        world@.wf(),
        world@.map_ready(),
    ensures
        r == enemy_seen(world@),
{
    let ghost w = world@;
    let mut i: usize = 0;
    while i < world.entity_indexes.len()
        invariant
            w == world@,
            w.wf(),
            w.map_ready(),
            i <= w.entities.len(),
            forall|q: int| 0 <= q < i ==> !enemy_in_view(w, #[trigger] w.entities[q]),
        decreases w.entities.len() - i,
    {
        let (id, ix) = world.entity_indexes[i];
        proof {
            assert(w.indexes_wf(w.entities[i as int].1));
        }
        match (ix.symbol, ix.map_object, ix.character, ix.ai) {
            (Some(s), Some(_), Some(_), Some(_)) => {
                if id != world.player.id {
                    proof {
                        w.lemma_symbol_on_grid(s as int);
                    }
                    let ex = world.symbols[s].x;
                    let ey = world.symbols[s].y;
                    if world.map[(ey * cfg::MAP_WIDTH + ex) as usize].in_fov {
                        proof {
                            assert(enemy_in_view(w, w.entities[i as int]));
                        }
                        return true;
                    }
                }
            },
            _ => {},
        }
        i = i + 1;
    }
    false
}

/// The squared distance from the player to the entity at position `i`.
pub open spec fn dist_to_player(w: WorldView, i: int) -> int {
    let e = w.entities[i];
    let s = w.symbols[e.1.symbol.unwrap() as int];
    let (px, py) = player_pos(w);
    sq_dist(px, py, s.x as int, s.y as int)
}

/// Scanning the first `n` entities finds the nearest enemy in view, if any
/// is nearer than `bound` (the first of the nearest), with its distance.
proof fn lemma_closest_scan_nearest(w: WorldView, n: int, bound: int)
    requires
        0 <= n <= w.entities.len(),
    ensures
        ({
            let (best, bd) = closest_scan(w, n, bound);
            &&& best is None ==> bd == bound && forall|i: int|
                0 <= i < n && enemy_in_view(w, #[trigger] w.entities[i]) ==> dist_to_player(w, i) >= bound
            &&& best matches Some(m) ==> exists|j: int|
                0 <= j < n && #[trigger] w.entities[j].0 == m && enemy_in_view(w, w.entities[j]) && bd
                    == dist_to_player(w, j) && bd < bound && (forall|i: int|
                    0 <= i < n && enemy_in_view(w, #[trigger] w.entities[i]) ==> bd <= dist_to_player(w, i))
                    && (forall|i: int|
                    0 <= i < j && enemy_in_view(w, #[trigger] w.entities[i]) ==> bd < dist_to_player(w, i))
        }),
    decreases n,
{
    if n > 0 {
        lemma_closest_scan_nearest(w, n - 1, bound);
        let (best, bd) = closest_scan(w, n - 1, bound);
        let e = w.entities[n - 1];
        if enemy_in_view(w, e) {
            let d = dist_to_player(w, n - 1);
            if d < bd {
                assert(w.entities[n - 1].0 == e.0);
                match best {
                    Some(m) => {
                        let j = choose|j: int|
                            0 <= j < n - 1 && #[trigger] w.entities[j].0 == m && enemy_in_view(w, w.entities[j]) && bd
                                == dist_to_player(w, j) && bd < bound && (forall|i: int|
                                0 <= i < n - 1 && enemy_in_view(w, #[trigger] w.entities[i]) ==> bd <= dist_to_player(w, i))
                                && (forall|i: int|
                                0 <= i < j && enemy_in_view(w, #[trigger] w.entities[i]) ==> bd < dist_to_player(w, i));
                    },
                    None => {},
                }
            } else {
                match best {
                    Some(m) => {
                        let j = choose|j: int|
                            0 <= j < n - 1 && #[trigger] w.entities[j].0 == m && enemy_in_view(w, w.entities[j]) && bd
                                == dist_to_player(w, j) && bd < bound && (forall|i: int|
                                0 <= i < n - 1 && enemy_in_view(w, #[trigger] w.entities[i]) ==> bd <= dist_to_player(w, i))
                                && (forall|i: int|
                                0 <= i < j && enemy_in_view(w, #[trigger] w.entities[i]) ==> bd < dist_to_player(w, i));
                        assert(0 <= j < n && w.entities[j].0 == m);
                    },
                    None => {},
                }
            }
        }
    }
}

/// The slingshot aims at the nearest enemy: the enemy found is a character
/// other than the player, in view and at most `max_range` away (squared
/// distances compared); no enemy in view is nearer, and none with a smaller
/// id is as near. No enemy is found only when every enemy in view is farther
/// than `max_range`.
pub proof fn law_closest_is_nearest(w: WorldView, max_range: int)
    requires
        w.wf(),
    ensures
        spec_closest_monster(w, max_range) matches Some(m) ==> exists|j: int|
            0 <= j < w.entities.len() && #[trigger] w.entities[j].0 == m && {
                let ix = w.entities[j].1;
                let s = w.symbols[ix.symbol.unwrap() as int];
                let (px, py) = player_pos(w);
                &&& ix.symbol is Some && ix.map_object is Some && ix.character is Some && ix.ai is Some
                &&& m != w.player.id
                &&& w.cell_at(s.x as int, s.y as int).in_fov
                &&& max_range >= 0 && sq_dist(px, py, s.x as int, s.y as int) <= max_range * max_range
                &&& forall|i: int|
                    0 <= i < w.entities.len() && enemy_in_view(w, #[trigger] w.entities[i]) ==> sq_dist(
                        px,
                        py,
                        s.x as int,
                        s.y as int,
                    ) <= dist_to_player(w, i)
                &&& forall|i: int|
                    0 <= i < j && enemy_in_view(w, #[trigger] w.entities[i]) ==> sq_dist(
                        px,
                        py,
                        s.x as int,
                        s.y as int,
                    ) < dist_to_player(w, i)
            },
        spec_closest_monster(w, max_range) is None ==> forall|i: int|
            0 <= i < w.entities.len() && enemy_in_view(w, #[trigger] w.entities[i]) ==> max_range < 0
                || dist_to_player(w, i) > max_range * max_range,
{
    let n = w.entities.len() as int;
    let bound = range_bound(max_range);
    lemma_closest_scan_nearest(w, n, bound);
    let (best, bd) = closest_scan(w, n, bound);
    match best {
        Some(m) => {
            let j = choose|j: int|
                0 <= j < n && #[trigger] w.entities[j].0 == m && enemy_in_view(w, w.entities[j]) && bd
                    == dist_to_player(w, j) && bd < bound && (forall|i: int|
                    0 <= i < n && enemy_in_view(w, #[trigger] w.entities[i]) ==> bd <= dist_to_player(w, i))
                    && (forall|i: int|
                    0 <= i < j && enemy_in_view(w, #[trigger] w.entities[i]) ==> bd < dist_to_player(w, i));
            let ix = w.entities[j].1;
            let sy = w.symbols[ix.symbol.unwrap() as int];
            let (px, py) = player_pos(w);
            lemma_sq_dist_nonneg(px, py, sy.x as int, sy.y as int);
            assert(max_range >= 0);
            assert(w.entities[j].0 == m);
        },
        None => {
            assert forall|i: int| 0 <= i < n && enemy_in_view(w, #[trigger] w.entities[i]) implies max_range < 0
                || dist_to_player(w, i) > max_range * max_range by {
                assert(dist_to_player(w, i) >= bound);
            }
        },
    }
}

/// A squared distance is never negative.
pub proof fn lemma_sq_dist_nonneg(x1: int, y1: int, x2: int, y2: int)
    ensures
        sq_dist(x1, y1, x2, y2) >= 0,
{
    assert((x2 - x1) * (x2 - x1) >= 0) by (nonlinear_arith);
    assert((y2 - y1) * (y2 - y1) >= 0) by (nonlinear_arith);
}

pub proof fn lemma_closest_scan(w: WorldView, n: int, bound: int)
    requires
        w.wf(),
        0 <= n <= w.entities.len(),
    ensures
        closest_scan(w, n, bound).0 matches Some(id) ==> w.is_character(id) && id != w.player.id,
    decreases n,
{
    if n > 0 {
        lemma_closest_scan(w, n - 1, bound);
        w.lemma_indexes_at(n - 1);
    }
}

/// Finds the closest enemy, up to a maximum range, and in the player's field
/// of view.
fn closest_monster(max_range: i32, world: &World) -> (r: Option<u32>)
    requires
        world@.wf(),
        world@.map_ready(),
        world@.is_character(world@.player.id),
    ensures
        r == spec_closest_monster(world@, max_range as int),
        r matches Some(id) ==> world@.is_character(id) && id != world@.player.id,
{
    let ghost w = world@;
    let player_symbol = world.player_sym();
    let (px, py) = (player_symbol.x, player_symbol.y);
    proof {
        w.lemma_wf_indexes(w.player.id);
        w.lemma_symbol_on_grid(w.ix(w.player.id).symbol.unwrap() as int);
    }
    let mut closest_enemy: Option<u32> = None;
    // start with (slightly more than) maximum range
    let mut closest_dist: i128 = if max_range >= 0 { sq_range(max_range) + 1 } else { 0 };
    let mut i: usize = 0;
    while i < world.entity_indexes.len()
        invariant
            w == world@,
            w.wf(),
            w.map_ready(),
            (px as int, py as int) == player_pos(w),
            i <= w.entities.len(),
            (closest_enemy, closest_dist as int) == closest_scan(w, i as int, range_bound(max_range as int)),
        decreases w.entities.len() - i,
    {
        let (id, ix) = world.entity_indexes[i];
        proof {
            assert(w.indexes_wf(w.entities[i as int].1));
        }
        match (ix.symbol, ix.map_object, ix.character, ix.ai) {
            (Some(s), Some(_), Some(_), Some(_)) => {
                if id != world.player.id {
                    proof {
                        w.lemma_symbol_on_grid(s as int);
                    }
                    let ex = world.symbols[s].x;
                    let ey = world.symbols[s].y;
                    if world.map[(ey * cfg::MAP_WIDTH + ex) as usize].in_fov {
                        // calculate distance between this object and the player
                        let dist = sq_distance(px, py, ex, ey);
                        if dist < closest_dist {
                            // it's closer, so remember it
                            closest_enemy = Some(id);
                            closest_dist = dist;
                        }
                    }
                }
            },
            _ => {},
        }
        i = i + 1;
    }
    proof {
        lemma_closest_scan(w, w.entities.len() as int, range_bound(max_range as int));
    }
    closest_enemy
}

pub open spec fn full_health_msg() -> Seq<char> {
    "You are already at full health."@
}

pub open spec fn feel_better_msg() -> Seq<char> {
    "Your wounds start to feel better!"@
}

/// Using a medkit: it heals the player, unless it is at full health.
pub open spec fn medkit_used(w: WorldView) -> (WorldView, UseResult) {
    let pid = w.player.id;
    if w.char_of(pid).hp == w.stat(pid, Stat::MaxHp) {
        (w.with_log(full_health_msg(), cfg::color_orange()), UseResult::Cancelled)
    } else {
        let w1 = w.with_log(feel_better_msg(), cfg::color_green());
        (healed_world(w1, pid, cfg::HEAL_AMOUNT as int), UseResult::UsedUp)
    }
}

/// The numbers a medkit computes fit: the player's maximum hit points, the
/// healed hit points, and the id of the message.
pub open spec fn medkit_fits(w: WorldView) -> bool {
    let pid = w.player.id;
    &&& w.stat_fits(pid, Stat::MaxHp)
    &&& w.id_count < u32::MAX
    &&& w.char_of(pid).hp != w.stat(pid, Stat::MaxHp) ==> w.char_of(pid).hp + cfg::HEAL_AMOUNT <= i32::MAX
}

fn use_medkit(world: &mut World) -> (r: UseResult)
    requires
        old(world)@.wf(),
        medkit_fits(old(world)@),
        old(world)@.is_character(old(world)@.player.id),
    ensures
        final(world)@.items == old(world)@.items,
        final(world)@.wf(),
        (final(world)@, r) == medkit_used(old(world)@),
{
    let ghost pre = world@;
    let pid = world.player.id;
    // heal the player
    let player_hp = world.player_char().hp;
    if player_hp == world.max_hp(pid) {
        world.add_log(cfg::color_orange(), String::from_str("You are already at full health."));
        return UseResult::Cancelled;
    }
    world.add_log(cfg::color_green(), String::from_str("Your wounds start to feel better!"));
    proof {
        pre.lemma_with_log(feel_better_msg(), cfg::color_green());
        assert(world@.indexes_of(pid) == pre.indexes_of(pid));
        pre.lemma_wf_indexes(pid);
    }
    crate::game::heal(pid, cfg::HEAL_AMOUNT, world);
    UseResult::UsedUp
}

pub open spec fn whizz_msg(name: Seq<char>) -> Seq<char> {
    "A Steel Ball whizzed to a "@ + name + "! The damage is "@ + int_text(cfg::SLINGSHOT_DAMAGE as int)
        + " hit points."@
}

pub open spec fn no_shot_msg() -> Seq<char> {
    "No enemy is close enough to shoot."@
}

/// Shooting the slingshot: the closest enemy in range takes the damage, and
/// the player gains its experience if it dies.
pub open spec fn slingshot_used(w: WorldView) -> (WorldView, UseResult) {
    match spec_closest_monster(w, cfg::SLINGSHOT_RANGE as int) {
        Some(m) => {
            let mi = w.ix(m).character.unwrap() as int;
            let tc = damaged(w.characters[mi], cfg::SLINGSHOT_DAMAGE as int);
            let chars = w.characters.update(mi, tc);
            let pi = w.ix(w.player.id).character.unwrap() as int;
            let chars2 = if tc.hp <= 0 {
                chars.update(pi, Character { xp: (chars[pi].xp + w.characters[mi].xp) as i32, ..chars[pi] })
            } else {
                chars
            };
            (
                WorldView { characters: chars2, ..w }.with_log(whizz_msg(w.mobj_of(m).name), cfg::color_lightest_grey()),
                UseResult::UsedUp,
            )
        },
        None => (w.with_log(no_shot_msg(), cfg::color_dark_sky()), UseResult::Cancelled),
    }
}

/// The numbers a shot computes fit: the id of the message, the target's hit
/// points after the damage, and the player's experience if it dies.
pub open spec fn slingshot_fits(w: WorldView) -> bool {
    &&& w.id_count < u32::MAX
    &&& spec_closest_monster(w, cfg::SLINGSHOT_RANGE as int) matches Some(m) ==> {
        let mi = w.ix(m).character.unwrap() as int;
        let pi = w.ix(w.player.id).character.unwrap() as int;
        let tc = damaged(w.characters[mi], cfg::SLINGSHOT_DAMAGE as int);
        &&& w.characters[mi].hp - cfg::SLINGSHOT_DAMAGE >= i32::MIN
        &&& tc.hp <= 0 ==> i32::MIN <= w.characters.update(mi, tc)[pi].xp + w.characters[mi].xp <= i32::MAX
    }
}

fn shoot_slingshot(world: &mut World) -> (r: UseResult)
    requires
        old(world)@.wf(),
        slingshot_fits(old(world)@),
        old(world)@.map_ready(),
        enemy_seen(old(world)@) ==> old(world)@.is_character(old(world)@.player.id),
    ensures
        final(world)@.items == old(world)@.items,
        final(world)@.wf(),
        (final(world)@, r) == slingshot_used(old(world)@),
{
    let ghost pre = world@;
    // find closest enemy (inside a maximum range and damage it)
    let monster_id = if world.get_character(world.player.id).is_some() {
        closest_monster(cfg::SLINGSHOT_RANGE, world)
    } else {
        proof {
            lemma_no_enemy_seen(pre, pre.entities.len() as int, range_bound(cfg::SLINGSHOT_RANGE as int));
        }
        None
    };
    if let Some(monster_id) = monster_id {
        let mix = world.get_indexes(monster_id).unwrap();
        let pix = world.get_indexes(world.player.id).unwrap();
        proof {
            pre.lemma_wf_indexes(monster_id);
            pre.lemma_wf_indexes(pre.player.id);
        }
        let mi = mix.character.unwrap();
        let mut monster = world.characters[mi];
        let r = take_damage(&mut monster, cfg::SLINGSHOT_DAMAGE);
        world.characters.set(mi, monster);
        if let Some(xp) = r {
            let pi = pix.character.unwrap();
            let mut player = world.characters[pi];
            player.xp = player.xp + xp;
            world.characters.set(pi, player);
        }
        let monster_name = world.map_objects[mix.map_object.unwrap()].name.clone();
        let mut msg = String::from_str("A Steel Ball whizzed to a ");
        msg.append(monster_name.as_str());
        msg.append("! The damage is ");
        msg.append(int_to_string(cfg::SLINGSHOT_DAMAGE).as_str());
        msg.append(" hit points.");
        proof {
            pre.lemma_same_entities(world@);
        }
        world.add_log(cfg::color_lightest_grey(), msg);
        UseResult::UsedUp
    } else {
        // no enemy found within maximum range
        world.add_log(cfg::color_dark_sky(), String::from_str("No enemy is close enough to shoot."));
        UseResult::Cancelled
    }
}

/// A shot hits the enemy the slingshot aims at and nobody else: it loses
/// `SLINGSHOT_DAMAGE` hit points, and if that leaves it none the player
/// gains its experience; with no enemy to aim at the shot is cancelled and every
/// fighter is left as it was (where no two entities share a fighter).
pub proof fn law_slingshot_hits_target(w: WorldView)
    requires
        w.wf(),
        w.is_character(w.player.id),
        forall|i1: int, i2: int|
            0 <= i1 < w.entities.len() && 0 <= i2 < w.entities.len() && i1 != i2 && (
            #[trigger] w.entities[i1]).1.character is Some ==> (#[trigger] w.entities[i2]).1.character
                != w.entities[i1].1.character,
    ensures
        ({
            let (post, r) = slingshot_used(w);
            let pi = w.ix(w.player.id).character.unwrap() as int;
            match spec_closest_monster(w, cfg::SLINGSHOT_RANGE as int) {
                Some(m) => {
                    let mi = w.ix(m).character.unwrap() as int;
                    let c = w.characters[mi];
                    &&& r == UseResult::UsedUp
                    &&& post.characters[mi].hp == (c.hp - cfg::SLINGSHOT_DAMAGE) as i32
                    &&& post.characters[pi].xp == if post.characters[mi].hp <= 0 {
                        (w.characters[pi].xp + c.xp) as i32
                    } else {
                        w.characters[pi].xp
                    }
                    &&& forall|k: int| 0 <= k < w.characters.len() && k != mi && k != pi ==> #[trigger] post.characters[k] == w.characters[k]
                },
                None => r == UseResult::Cancelled && post.characters == w.characters,
            }
        }),
{
    match spec_closest_monster(w, cfg::SLINGSHOT_RANGE as int) {
        Some(m) => {
            lemma_closest_scan(w, w.entities.len() as int, range_bound(cfg::SLINGSHOT_RANGE as int));
            w.lemma_wf_indexes(m);
            w.lemma_wf_indexes(w.player.id);
            let mi = w.ix(m).character.unwrap() as int;
            let pi = w.ix(w.player.id).character.unwrap() as int;
            let pp = w.pos_of(w.player.id);
            let pm = w.pos_of(m);
            assert(pp != pm);
            assert(w.entities[pm].1.character != w.entities[pp].1.character);
            assert(mi != pi);
        },
        None => {},
    }
}

pub open spec fn brick_hint_msg() -> Seq<char> {
    "Left-click an enemy to throw the brick, or right-click to cancel."@
}

pub open spec fn vacant_msg(name: Seq<char>) -> Seq<char> {
    "The eyes of "@ + name + " look vacant, as he starts to stumble around!"@
}

pub open spec fn no_throw_msg() -> Seq<char> {
    "No enemy is close enough to throw."@
}

/// The mind of a monster hit by a brick: confused for a while, then back to
/// what it was (or the basic mind if it had none).
pub open spec fn confused(a: AiOption) -> AiOption {
    let previous = match a.option {
        Some(ai) => ai,
        None => Ai::Basic,
    };
    AiOption { option: Some(Ai::Confused { previous_ai: Box::new(previous), num_turns: cfg::BRICK_NUM_TURNS }) }
}

/// Throwing a brick: first the player is asked for a target; then the
/// character clicked in range is confused.
pub open spec fn brick_used(w: WorldView, by_targeting: bool) -> (WorldView, UseResult) {
    if !by_targeting {
        (w.with_log(brick_hint_msg(), cfg::color_dark_sky()), UseResult::NeedTargeting)
    } else {
        match w.player.action {
            PlayerAction::ClickAt(x, y) => match spec_target_monster(w, Some(cfg::BRICK_RANGE as int), x as int, y as int) {
                Some(m) => {
                    let ak = w.ix(m).ai.unwrap() as int;
                    (
                        WorldView { ais: w.ais.update(ak, confused(w.ais[ak])), ..w }.with_log(
                            vacant_msg(w.mobj_of(m).name),
                            cfg::color_lightest_grey(),
                        ),
                        UseResult::UsedUp,
                    )
                },
                None => (w.with_log(no_throw_msg(), cfg::color_dark_sky()), UseResult::Cancelled),
            },
            _ => (w, UseResult::Cancelled),
        }
    }
}

/// The item is thrown at a clicked cell.
pub open spec fn aims_at_click(w: WorldView, by_targeting: bool) -> bool {
    by_targeting && w.player.action is ClickAt
}

/// A brick reaches only as far as `BRICK_RANGE`: a thrown brick is used up
/// only on a character other than the player standing at the clicked cell,
/// which is in view and at most `BRICK_RANGE` from the player (squared
/// distances compared), and it is that character's mind that is confused;
/// when no such character is there the use is cancelled and no mind changes.
pub proof fn law_brick_in_range(w: WorldView, x: i32, y: i32)
    requires
        w.wf(),
        w.player.action == PlayerAction::ClickAt(x, y),
    ensures
        ({
            let (post, r) = brick_used(w, true);
            let (px, py) = player_pos(w);
            &&& r == UseResult::UsedUp ==> {
                &&& sq_dist(px, py, x as int, y as int) <= cfg::BRICK_RANGE * cfg::BRICK_RANGE
                &&& w.map[y * cfg::MAP_WIDTH + x].in_fov
                &&& exists|j: int|
                    0 <= j < w.entities.len() && {
                        let e = #[trigger] w.entities[j];
                        &&& e.1.symbol is Some && e.1.map_object is Some && e.1.character is Some && e.1.ai is Some
                        &&& e.0 != w.player.id
                        &&& w.symbols[e.1.symbol.unwrap() as int].x == x
                        &&& w.symbols[e.1.symbol.unwrap() as int].y == y
                        &&& post.ais == w.ais.update(
                            e.1.ai.unwrap() as int,
                            confused(w.ais[e.1.ai.unwrap() as int]),
                        )
                        &&& post.ais[e.1.ai.unwrap() as int].option matches Some(Ai::Confused { previous_ai, num_turns }) && num_turns
                            == cfg::BRICK_NUM_TURNS && *previous_ai == (match w.ais[e.1.ai.unwrap() as int].option {
                            Some(a) => a,
                            None => Ai::Basic,
                        })
                    }
            }
            &&& r != UseResult::UsedUp ==> post.ais == w.ais
            &&& sq_dist(px, py, x as int, y as int) > cfg::BRICK_RANGE * cfg::BRICK_RANGE ==> r
                == UseResult::Cancelled && post.ais == w.ais
        }),
{
    let pred = target_pred(w, x as int, y as int);
    if spec_target_tile(w, Some(cfg::BRICK_RANGE as int), x as int, y as int) {
        game::lemma_first_exists(w.entities, pred);
        match first(w.entities, pred) {
            Some(m) => {
                let p = choose|p: int| 0 <= p < w.entities.len() && #[trigger] w.entities[p].0 == m && pred(w.entities[p])
                    && forall|q: int| 0 <= q < p ==> !pred(#[trigger] w.entities[q]);
                w.lemma_indexes_at(p);
                let (post, r) = brick_used(w, true);
                assert(post.ais == w.ais.update(w.ix(m).ai.unwrap() as int, confused(w.ais[w.ix(m).ai.unwrap() as int])));
                assert(w.entities[p].0 == m);
            },
            None => {},
        }
    }
}

/// A click to aim with is usable.
pub open spec fn aim_ok(w: WorldView, by_targeting: bool) -> bool {
    by_targeting ==> match w.player.action {
        PlayerAction::ClickAt(x, y) => click_ok(w, x as int, y as int),
        PlayerAction::Cancel => true,
        _ => false,
    }
}

fn throw_brick(world: &mut World, by_targeting: bool) -> (r: UseResult)
    requires
        old(world)@.wf(),
        old(world).id_count < u32::MAX,
        aims_at_click(old(world)@, by_targeting) ==> old(world)@.is_character(old(world)@.player.id),
        aim_ok(old(world)@, by_targeting),
    ensures
        final(world)@.items == old(world)@.items,
        final(world)@.wf(),
        (final(world)@, r) == brick_used(old(world)@, by_targeting),
{
    let ghost pre = world@;
    if !by_targeting {
        // ask the player for a target to confuse
        world.add_log(
            cfg::color_dark_sky(),
            String::from_str("Left-click an enemy to throw the brick, or right-click to cancel."),
        );
        return UseResult::NeedTargeting;
    }
    let (x, y) = match world.player.action {
        PlayerAction::ClickAt(x, y) => (x, y),
        _ => return UseResult::Cancelled,
    };
    let monster_id = target_monster(world, Some(cfg::BRICK_RANGE), x, y);
    if let Some(monster_id) = monster_id {
        let ix = world.get_indexes(monster_id).unwrap();
        proof {
            pre.lemma_wf_indexes(monster_id);
        }
        let ak = ix.ai.unwrap();
        let old_ai = match world.ais[ak].option.take() {
            Some(a) => a,
            None => Ai::Basic,
        };
        // replace the monster's AI with a "confused" one; after
        // some turns it will restore the old AI
        world.ais[ak].option = Some(Ai::Confused { previous_ai: Box::new(old_ai), num_turns: cfg::BRICK_NUM_TURNS });
        let monster_name = world.map_objects[ix.map_object.unwrap()].name.clone();
        let mut msg = String::from_str("The eyes of ");
        msg.append(monster_name.as_str());
        msg.append(" look vacant, as he starts to stumble around!");
        proof {
            pre.lemma_same_entities(world@);
            assert(world@.ais =~= pre.ais.update(ak as int, confused(pre.ais[ak as int])));
        }
        world.add_log(cfg::color_lightest_grey(), msg);
        UseResult::UsedUp
    } else {
        world.add_log(cfg::color_dark_sky(), String::from_str("No enemy is close enough to throw."));
        UseResult::Cancelled
    }
}

pub open spec fn cartridge_hint_msg() -> Seq<char> {
    "Left-click a target tile to throw the charge, or right-click to cancel."@
}

pub open spec fn explosion_msg() -> Seq<char> {
    "The Blasting Cartridge explodes, crushing everything within "@ + int_text(cfg::BLASTING_RADIUS as int)
        + " tiles!"@
}

pub open spec fn blast_damage_msg(name: Seq<char>) -> Seq<char> {
    "The "@ + name + " gets damaged for "@ + int_text(cfg::BLASTING_DAMAGE as int) + " hit points."@
}

/// The entity `e` is a character standing within the blast radius of `(x, y)`.
pub open spec fn in_blast(w: WorldView, e: (u32, Indexes), x: int, y: int) -> bool {
    &&& e.1.symbol is Some
    &&& e.1.map_object is Some
    &&& e.1.character is Some
    &&& e.1.ai is Some
    &&& sq_dist(
        w.symbols[e.1.symbol.unwrap() as int].x as int,
        w.symbols[e.1.symbol.unwrap() as int].y as int,
        x,
        y,
    ) <= cfg::BLASTING_RADIUS * cfg::BLASTING_RADIUS
}

/// The characters among the first `n` entities that a blast at `(x, y)`
/// reaches, in the order of the entities.
pub open spec fn blast_targets(w: WorldView, n: int, x: int, y: int) -> Seq<(u32, Indexes)>
    decreases n,
{
    if n <= 0 {
        Seq::empty()
    } else {
        let s = blast_targets(w, n - 1, x, y);
        if in_blast(w, w.entities[n - 1], x, y) {
            s.push(w.entities[n - 1])
        } else {
            s
        }
    }
}

pub proof fn lemma_blast_targets(w: WorldView, n: int, x: int, y: int)
    requires
        w.wf(),
        0 <= n <= w.entities.len(),
    ensures
        blast_targets(w, n, x, y).len() <= n,
        forall|j: int|
            0 <= j < blast_targets(w, n, x, y).len() ==> {
                let t = #[trigger] blast_targets(w, n, x, y)[j];
                &&& w.indexes_wf(t.1)
                &&& in_blast(w, t, x, y)
            },
    decreases n,
{
    if n > 0 {
        lemma_blast_targets(w, n - 1, x, y);
        assert(w.indexes_wf(w.entities[n - 1].1));
    }
}

/// The targets of a blast are entities, each in the blast, in order of id,
/// and every entity in the blast is among them.
proof fn lemma_blast_targets_are(w: WorldView, n: int, x: int, y: int)
    requires
        w.wf(),
        0 <= n <= w.entities.len(),
    ensures
        ({
            let ts = blast_targets(w, n, x, y);
            &&& forall|j: int| 0 <= j < ts.len() ==> exists|i: int| 0 <= i < n && #[trigger] ts[j] == w.entities[i]
            &&& forall|i: int|
                0 <= i < n && in_blast(w, #[trigger] w.entities[i], x, y) ==> exists|j: int|
                    0 <= j < ts.len() && ts[j] == w.entities[i]
            &&& forall|j1: int, j2: int| 0 <= j1 < j2 < ts.len() ==> (#[trigger] ts[j1]).0 < (#[trigger] ts[j2]).0
        }),
    decreases n,
{
    if n > 0 {
        lemma_blast_targets_are(w, n - 1, x, y);
        let prev = blast_targets(w, n - 1, x, y);
        let ts = blast_targets(w, n, x, y);
        let e = w.entities[n - 1];
        if in_blast(w, e, x, y) {
            assert(ts == prev.push(e));
            assert forall|j: int| 0 <= j < ts.len() implies exists|i: int| 0 <= i < n && #[trigger] ts[j] == w.entities[i] by {
                if j < prev.len() {
                    assert(ts[j] == prev[j]);
                } else {
                    assert(ts[j] == w.entities[n - 1]);
                }
            }
            assert forall|i: int| 0 <= i < n && in_blast(w, #[trigger] w.entities[i], x, y) implies exists|j: int|
                0 <= j < ts.len() && ts[j] == w.entities[i] by {
                if i < n - 1 {
                    let j = choose|j: int| 0 <= j < prev.len() && prev[j] == w.entities[i];
                    assert(ts[j] == prev[j]);
                } else {
                    assert(ts[prev.len() as int] == w.entities[i]);
                }
            }
            assert forall|j1: int, j2: int| 0 <= j1 < j2 < ts.len() implies (#[trigger] ts[j1]).0 < (#[trigger] ts[j2]).0 by {
                assert(ts[j1] == prev[j1]);
                if j2 < prev.len() {
                    assert(ts[j2] == prev[j2]);
                } else {
                    let i = choose|i: int| 0 <= i < n - 1 && #[trigger] prev[j1] == w.entities[i];
                    assert(w.entities[i].0 < w.entities[n - 1].0);
                }
            }
        }
    }
}

/// The first `k` targets hit: one of them holds the fighter at `c`.
pub open spec fn hit_by(ts: Seq<(u32, Indexes)>, k: int, c: int) -> bool {
    exists|j: int| 0 <= j < k && (#[trigger] ts[j]).1.character is Some && ts[j].1.character.unwrap() == c
}

/// Each target hit, holding a fighter of its own, loses the blast's damage
/// once; every other fighter is untouched.
proof fn lemma_blasted_damage(v0: WorldView, ts: Seq<(u32, Indexes)>, k: int)
    requires
        0 <= k <= ts.len(),
        forall|j: int|
            0 <= j < ts.len() ==> {
                let ci = (#[trigger] ts[j]).1.character;
                &&& ci is Some
                &&& ci.unwrap() < v0.characters.len()
                &&& v0.characters[ci.unwrap() as int].hp - cfg::BLASTING_DAMAGE >= i32::MIN
            },
        forall|j1: int, j2: int|
            0 <= j1 < ts.len() && 0 <= j2 < ts.len() && j1 != j2 ==> (#[trigger] ts[j1]).1.character != (
            #[trigger] ts[j2]).1.character,
    ensures
        blasted(v0, ts, k).0.characters.len() == v0.characters.len(),
        forall|c: int|
            0 <= c < v0.characters.len() ==> (#[trigger] blasted(v0, ts, k).0.characters[c]).hp == v0.characters[c].hp
                - (if hit_by(ts, k, c) {
                cfg::BLASTING_DAMAGE as int
            } else {
                0
            }),
    decreases k,
{
    if k > 0 {
        lemma_blasted_damage(v0, ts, k - 1);
        let v = blasted(v0, ts, k - 1).0;
        let t = ts[k - 1];
        let ci = t.1.character.unwrap() as int;
        assert(!hit_by(ts, k - 1, ci)) by {
            if hit_by(ts, k - 1, ci) {
                let j = choose|j: int| 0 <= j < k - 1 && (#[trigger] ts[j]).1.character is Some && ts[j].1.character.unwrap() == ci;
                assert(ts[j].1.character == ts[k - 1].1.character);
            }
        }
        let post = blasted(v0, ts, k).0;
        assert forall|c: int| 0 <= c < v0.characters.len() implies (#[trigger] post.characters[c]).hp
            == v0.characters[c].hp - (if hit_by(ts, k, c) {
            cfg::BLASTING_DAMAGE as int
        } else {
            0
        }) by {
            assert(v.characters[c] == blasted(v0, ts, k - 1).0.characters[c]);
            if c == ci {
                assert(hit_by(ts, k, c));
            } else {
                if hit_by(ts, k, c) {
                    let j = choose|j: int| 0 <= j < k && (#[trigger] ts[j]).1.character is Some && ts[j].1.character.unwrap() == c;
                    assert(j != k - 1);
                    assert(hit_by(ts, k - 1, c));
                }
                if hit_by(ts, k - 1, c) {
                    let j = choose|j: int| 0 <= j < k - 1 && (#[trigger] ts[j]).1.character is Some && ts[j].1.character.unwrap() == c;
                    assert(hit_by(ts, k, c));
                }
            }
        }
    }
}

/// No two entities share a fighter.
pub open spec fn fighters_own(w: WorldView) -> bool {
    forall|i1: int, i2: int|
        0 <= i1 < w.entities.len() && 0 <= i2 < w.entities.len() && i1 != i2 && (
        #[trigger] w.entities[i1]).1.character is Some ==> (#[trigger] w.entities[i2]).1.character
            != w.entities[i1].1.character
}

/// The experience of the characters other than the player, among the first
/// `n` entities, standing at most `BLASTING_RADIUS` from `(x, y)` and left
/// without hit points by `BLASTING_DAMAGE`.
pub open spec fn killed_xp(w: WorldView, n: int, x: int, y: int) -> int
    decreases n,
{
    if n <= 0 {
        0
    } else {
        let e = w.entities[n - 1];
        let here = if e.1.symbol is Some && e.1.map_object is Some && e.1.character is Some && e.1.ai is Some
            && e.0 != w.player.id && sq_dist(
            w.symbols[e.1.symbol.unwrap() as int].x as int,
            w.symbols[e.1.symbol.unwrap() as int].y as int,
            x,
            y,
        ) <= cfg::BLASTING_RADIUS * cfg::BLASTING_RADIUS && w.characters[e.1.character.unwrap() as int].hp
            - cfg::BLASTING_DAMAGE <= 0 {
            w.characters[e.1.character.unwrap() as int].xp as int
        } else {
            0
        };
        killed_xp(w, n - 1, x, y) + here
    }
}

/// The targets of a blast hold fighters of their own, in range, whose hit
/// points can take the damage.
proof fn lemma_targets_ready(w: WorldView, n: int, x: int, y: int)
    requires
        w.wf(),
        0 <= n <= w.entities.len(),
        fighters_own(w),
        forall|i: int|
            0 <= i < w.entities.len() && (#[trigger] w.entities[i]).1.character is Some ==> w.characters[w.entities[i].1.character.unwrap() as int].hp
                - cfg::BLASTING_DAMAGE >= i32::MIN,
    ensures
        ({
            let ts = blast_targets(w, n, x, y);
            &&& forall|j: int|
                0 <= j < ts.len() ==> {
                    let ci = (#[trigger] ts[j]).1.character;
                    &&& ci is Some
                    &&& ci.unwrap() < w.characters.len()
                    &&& w.characters[ci.unwrap() as int].hp - cfg::BLASTING_DAMAGE >= i32::MIN
                }
            &&& forall|j1: int, j2: int|
                0 <= j1 < ts.len() && 0 <= j2 < ts.len() && j1 != j2 ==> (#[trigger] ts[j1]).1.character != (
                #[trigger] ts[j2]).1.character
        }),
{
    let ts = blast_targets(w, n, x, y);
    lemma_blast_targets(w, n, x, y);
    lemma_blast_targets_are(w, n, x, y);
    assert forall|j1: int, j2: int|
        0 <= j1 < ts.len() && 0 <= j2 < ts.len() && j1 != j2 implies (#[trigger] ts[j1]).1.character != (
        #[trigger] ts[j2]).1.character by {
        let i1 = choose|i: int| 0 <= i < n && #[trigger] ts[j1] == w.entities[i];
        let i2 = choose|i: int| 0 <= i < n && #[trigger] ts[j2] == w.entities[i];
        assert(in_blast(w, ts[j1], x, y));
        if i1 == i2 {
            if j1 < j2 {
                assert(ts[j1].0 < ts[j2].0);
            } else {
                assert(ts[j2].0 < ts[j1].0);
            }
        } else {
            assert(w.entities[i1].1.character is Some);
        }
    }
    assert forall|j: int| 0 <= j < ts.len() implies {
        let ci = (#[trigger] ts[j]).1.character;
        &&& ci is Some
        &&& ci.unwrap() < w.characters.len()
        &&& w.characters[ci.unwrap() as int].hp - cfg::BLASTING_DAMAGE >= i32::MIN
    } by {
        let i = choose|i: int| 0 <= i < n && #[trigger] ts[j] == w.entities[i];
        assert(w.indexes_wf(ts[j].1));
        assert(w.entities[i].1.character is Some);
    }
}

/// A blast changes no fighter's experience.
proof fn lemma_blasted_xp(v0: WorldView, ts: Seq<(u32, Indexes)>, k: int)
    requires
        0 <= k <= ts.len(),
        forall|j: int|
            0 <= j < ts.len() ==> (#[trigger] ts[j]).1.character is Some && ts[j].1.character.unwrap()
                < v0.characters.len(),
    ensures
        blasted(v0, ts, k).0.characters.len() == v0.characters.len(),
        forall|c: int| 0 <= c < v0.characters.len() ==> (#[trigger] blasted(v0, ts, k).0.characters[c]).xp == v0.characters[c].xp,
    decreases k,
{
    if k > 0 {
        lemma_blasted_xp(v0, ts, k - 1);
        let t = ts[k - 1];
        assert(t.1.character is Some);
        let post = blasted(v0, ts, k).0;
        let v = blasted(v0, ts, k - 1).0;
        assert forall|c: int| 0 <= c < v0.characters.len() implies (#[trigger] post.characters[c]).xp == v0.characters[c].xp by {
            assert(v.characters[c].xp == v0.characters[c].xp);
        }
    }
}

/// The first `k` hits of a blast do not depend on the targets after them.
proof fn lemma_blasted_prefix(v0: WorldView, ts: Seq<(u32, Indexes)>, e: (u32, Indexes), k: int)
    requires
        0 <= k <= ts.len(),
    ensures
        blasted(v0, ts.push(e), k) == blasted(v0, ts, k),
    decreases k,
{
    if k > 0 {
        lemma_blasted_prefix(v0, ts, e, k - 1);
        assert(ts.push(e)[k - 1] == ts[k - 1]);
    }
}

/// The experience a blast gathers is that of the characters, other than the
/// player, that it leaves without hit points.
proof fn lemma_blast_gain(w: WorldView, n: int, x: int, y: int)
    requires
        w.wf(),
        0 <= n <= w.entities.len(),
        fighters_own(w),
        forall|i: int|
            0 <= i < w.entities.len() && (#[trigger] w.entities[i]).1.character is Some ==> w.characters[w.entities[i].1.character.unwrap() as int].hp
                - cfg::BLASTING_DAMAGE >= i32::MIN,
    ensures
        ({
            let ts = blast_targets(w, n, x, y);
            let w1 = w.with_log(explosion_msg(), cfg::color_orange());
            blasted(w1, ts, ts.len() as int).1 == killed_xp(w, n, x, y)
        }),
    decreases n,
{
    if n > 0 {
        lemma_blast_gain(w, n - 1, x, y);
        let w1 = w.with_log(explosion_msg(), cfg::color_orange());
        let prev = blast_targets(w, n - 1, x, y);
        let ts = blast_targets(w, n, x, y);
        let e = w.entities[n - 1];
        if in_blast(w, e, x, y) {
            assert(ts == prev.push(e));
            lemma_blasted_prefix(w1, prev, e, prev.len() as int);
            lemma_targets_ready(w, n, x, y);
            lemma_targets_ready(w, n - 1, x, y);
            lemma_blast_targets_are(w, n - 1, x, y);
            lemma_blasted_damage(w1, prev, prev.len() as int);
            lemma_blasted_xp(w1, prev, prev.len() as int);
            let ci = e.1.character.unwrap() as int;
            assert(w.indexes_wf(e.1));
            assert(!hit_by(prev, prev.len() as int, ci)) by {
                if hit_by(prev, prev.len() as int, ci) {
                    let j = choose|j: int| 0 <= j < prev.len() && (#[trigger] prev[j]).1.character is Some && prev[j].1.character.unwrap() == ci;
                    let i = choose|i: int| 0 <= i < n - 1 && #[trigger] prev[j] == w.entities[i];
                    assert(w.entities[i].1.character != w.entities[n - 1].1.character);
                }
            }
            let v = blasted(w1, prev, prev.len() as int).0;
            assert(v.characters[ci].hp == w.characters[ci].hp);
            assert(v.characters[ci].xp == w.characters[ci].xp);
        }
    }
}

/// A blast spares nobody in its radius: after a cartridge thrown at a cell
/// in view, every character standing at most `BLASTING_RADIUS` from the cell
/// (squared distances compared), the player included, has lost
/// `BLASTING_DAMAGE` hit points, and every other character keeps its own;
/// the player gains the experience of the others it leaves without hit
/// points, and none for itself (where no two entities share a fighter, and
/// the damage fits an `i32`).
#[verifier::rlimit(80)]
#[verifier::spinoff_prover]
pub proof fn law_blast_hits_all_in_radius(w: WorldView, x: i32, y: i32)
    requires
        w.wf(),
        w.is_character(w.player.id),
        w.player.action == PlayerAction::ClickAt(x, y),
        spec_target_tile(w, None, x as int, y as int),
        fighters_own(w),
        forall|i: int|
            0 <= i < w.entities.len() && (#[trigger] w.entities[i]).1.character is Some ==> w.characters[w.entities[i].1.character.unwrap() as int].hp
                - cfg::BLASTING_DAMAGE >= i32::MIN,
    ensures
        ({
            let post = cartridge_used(w, true).0;
            let pi = w.ix(w.player.id).character.unwrap() as int;
            post.characters[pi].xp == (w.characters[pi].xp + killed_xp(w, w.entities.len() as int, x as int, y as int)) as i32
        }),
        forall|i: int|
            0 <= i < w.entities.len() ==> {
                let e = #[trigger] w.entities[i];
                let ci = e.1.character.unwrap() as int;
                let s = w.symbols[e.1.symbol.unwrap() as int];
                let post = cartridge_used(w, true).0;
                (e.1.symbol is Some && e.1.map_object is Some && e.1.character is Some && e.1.ai is Some) ==> post.characters[ci].hp
                    == if sq_dist(s.x as int, s.y as int, x as int, y as int) <= cfg::BLASTING_RADIUS
                    * cfg::BLASTING_RADIUS {
                    w.characters[ci].hp - cfg::BLASTING_DAMAGE
                } else {
                    w.characters[ci].hp as int
                }
            },
{
    let n = w.entities.len() as int;
    let ts = blast_targets(w, n, x as int, y as int);
    let w1 = w.with_log(explosion_msg(), cfg::color_orange());
    lemma_blast_targets(w, n, x as int, y as int);
    lemma_blast_targets_are(w, n, x as int, y as int);
    lemma_targets_ready(w, n, x as int, y as int);
    lemma_blast_gain(w, n, x as int, y as int);
    lemma_blasted_xp(w1, ts, ts.len() as int);
    lemma_blasted_damage(w1, ts, ts.len() as int);
    let (w2, gain) = blasted(w1, ts, ts.len() as int);
    let pi = w.ix(w.player.id).character.unwrap() as int;
    w.lemma_wf_indexes(w.player.id);
    let post = cartridge_used(w, true).0;
    assert(post.characters == w2.characters.update(pi, Character { xp: (w2.characters[pi].xp + gain) as i32, ..w2.characters[pi] }));
    assert forall|i: int| 0 <= i < n implies {
        let e = #[trigger] w.entities[i];
        let ci = e.1.character.unwrap() as int;
        let s = w.symbols[e.1.symbol.unwrap() as int];
        (e.1.symbol is Some && e.1.map_object is Some && e.1.character is Some && e.1.ai is Some) ==> post.characters[ci].hp
            == if sq_dist(s.x as int, s.y as int, x as int, y as int) <= cfg::BLASTING_RADIUS * cfg::BLASTING_RADIUS {
            w.characters[ci].hp - cfg::BLASTING_DAMAGE
        } else {
            w.characters[ci].hp as int
        }
    } by {
        let e = w.entities[i];
        if e.1.symbol is Some && e.1.map_object is Some && e.1.character is Some && e.1.ai is Some {
            let ci = e.1.character.unwrap() as int;
            assert(w.indexes_wf(e.1));
            assert(post.characters[ci].hp == w2.characters[ci].hp);
            assert(w2.characters[ci] == blasted(w1, ts, ts.len() as int).0.characters[ci]);
            if in_blast(w, e, x as int, y as int) {
                let j = choose|j: int| 0 <= j < ts.len() && ts[j] == w.entities[i];
                assert(hit_by(ts, ts.len() as int, ci));
            } else {
                if hit_by(ts, ts.len() as int, ci) {
                    let j = choose|j: int| 0 <= j < ts.len() && (#[trigger] ts[j]).1.character is Some && ts[j].1.character.unwrap() == ci;
                    let i2 = choose|i2: int| 0 <= i2 < n && #[trigger] ts[j] == w.entities[i2];
                    assert(in_blast(w, ts[j], x as int, y as int));
                    if i2 != i {
                        assert(w.entities[i].1.character != w.entities[i2].1.character);
                    }
                }
            }
        }
    }
}

/// A character `t` hit by the blast: it takes the damage, and a message says so.
pub open spec fn blast_hit(w: WorldView, t: (u32, Indexes)) -> WorldView {
    let ci = t.1.character.unwrap() as int;
    WorldView {
        characters: w.characters.update(ci, damaged(w.characters[ci], cfg::BLASTING_DAMAGE as int)),
        ..w
    }.with_log(blast_damage_msg(w.map_objects[t.1.map_object.unwrap() as int].name), cfg::color_lightest_grey())
}

/// The experience the player gains from the hit on `t`: that of a victim other
/// than the player itself.
pub open spec fn blast_gain(w: WorldView, t: (u32, Indexes), player: u32) -> int {
    let c = w.characters[t.1.character.unwrap() as int];
    if damaged(c, cfg::BLASTING_DAMAGE as int).hp <= 0 && t.0 != player {
        c.xp as int
    } else {
        0
    }
}

/// The world after the first `k` targets are hit, and the experience the
/// player gains from them.
pub open spec fn blasted(w: WorldView, targets: Seq<(u32, Indexes)>, k: int) -> (WorldView, int)
    decreases k,
{
    if k <= 0 {
        (w, 0)
    } else {
        let (v, g) = blasted(w, targets, k - 1);
        (blast_hit(v, targets[k - 1]), g + blast_gain(v, targets[k - 1], w.player.id))
    }
}

/// Throwing a blasting cartridge: first the player is asked for a target; then
/// every character within the radius of the clicked tile is damaged, the
/// player included, and the player gains the experience of the others that die.
pub open spec fn cartridge_used(w: WorldView, by_targeting: bool) -> (WorldView, UseResult) {
    if !by_targeting {
        (w.with_log(cartridge_hint_msg(), cfg::color_dark_sky()), UseResult::NeedTargeting)
    } else {
        match w.player.action {
            PlayerAction::ClickAt(x, y) => if !spec_target_tile(w, None, x as int, y as int) {
                (w, UseResult::Cancelled)
            } else {
                let targets = blast_targets(w, w.entities.len() as int, x as int, y as int);
                let w1 = w.with_log(explosion_msg(), cfg::color_orange());
                let (w2, gain) = blasted(w1, targets, targets.len() as int);
                let pi = w.ix(w.player.id).character.unwrap() as int;
                let pc = w2.characters[pi];
                (
                    WorldView {
                        characters: w2.characters.update(pi, Character { xp: (pc.xp + gain) as i32, ..pc }),
                        ..w2
                    },
                    UseResult::UsedUp,
                )
            },
            _ => (w, UseResult::Cancelled),
        }
    }
}

/// The numbers a blast at `(x, y)` computes fit: the ids of its messages,
/// each target's hit points after the damage, the experience gained so far,
/// and the player's experience at the end.
pub open spec fn blast_fits(w: WorldView, x: int, y: int) -> bool {
    let targets = blast_targets(w, w.entities.len() as int, x, y);
    let w1 = w.with_log(explosion_msg(), cfg::color_orange());
    let (w2, gain) = blasted(w1, targets, targets.len() as int);
    let pi = w.ix(w.player.id).character.unwrap() as int;
    &&& w.id_count + 1 + targets.len() <= u32::MAX
    &&& forall|k: int|
        0 <= k < targets.len() ==> {
            let (v, g) = #[trigger] blasted(w1, targets, k);
            &&& v.characters[targets[k].1.character.unwrap() as int].hp - cfg::BLASTING_DAMAGE >= i32::MIN
            &&& i32::MIN <= g + blast_gain(v, targets[k], w.player.id) <= i32::MAX
        }
    &&& i32::MIN <= w2.characters[pi].xp + gain <= i32::MAX
}

/// The numbers a cartridge computes fit: the id of its message, and the
/// blast at a clicked tile in view.
pub open spec fn cartridge_fits(w: WorldView, by_targeting: bool) -> bool {
    &&& w.id_count < u32::MAX
    &&& by_targeting ==> (w.player.action matches PlayerAction::ClickAt(x, y) ==> (spec_target_tile(
        w,
        None,
        x as int,
        y as int,
    ) ==> blast_fits(w, x as int, y as int)))
}

/// The characters a blast at `(x, y)` reaches.
fn find_blast_targets(world: &World, x: i32, y: i32) -> (r: Vec<(u32, Indexes)>)
    requires
        world@.wf(),
    ensures
        r@ == blast_targets(world@, world@.entities.len() as int, x as int, y as int),
{
    let mut r: Vec<(u32, Indexes)> = Vec::new();
    let mut i: usize = 0;
    while i < world.entity_indexes.len()
        invariant
            world@.wf(),
            i <= world@.entities.len(),
            r@ == blast_targets(world@, i as int, x as int, y as int),
        decreases world@.entities.len() - i,
    {
        let e = world.entity_indexes[i];
        proof {
            assert(world@.indexes_wf(world@.entities[i as int].1));
        }
        match (e.1.symbol, e.1.map_object, e.1.character, e.1.ai) {
            (Some(si), Some(_), Some(_), Some(_)) => {
                proof {
                    world@.lemma_symbol_on_grid(si as int);
                }
                let d = sq_distance(world.symbols[si].x, world.symbols[si].y, x, y);
                if d <= (cfg::BLASTING_RADIUS * cfg::BLASTING_RADIUS) as i128 {
                    r.push(e);
                }
            },
            _ => {},
        }
        i = i + 1;
    }
    r
}

#[verifier::rlimit(40)]
#[verifier::spinoff_prover]
fn throw_blasting_cartridge(world: &mut World, by_targeting: bool) -> (r: UseResult)
    requires
        old(world)@.wf(),
        cartridge_fits(old(world)@, by_targeting),
        aims_at_click(old(world)@, by_targeting) ==> old(world)@.is_character(old(world)@.player.id),
        aim_ok(old(world)@, by_targeting),
    ensures
        final(world)@.items == old(world)@.items,
        final(world)@.wf(),
        (final(world)@, r) == cartridge_used(old(world)@, by_targeting),
{
    let ghost pre = world@;
    if !by_targeting {
        world.add_log(
            cfg::color_dark_sky(),
            String::from_str("Left-click a target tile to throw the charge, or right-click to cancel."),
        );
        return UseResult::NeedTargeting;
    }
    let (x, y) = match world.player.action {
        PlayerAction::ClickAt(x, y) => (x, y),
        _ => return UseResult::Cancelled,
    };
    if !target_tile(world, None, x, y) {
        return UseResult::Cancelled;
    }
    let targets = find_blast_targets(world, x, y);
    proof {
        lemma_blast_targets(pre, pre.entities.len() as int, x as int, y as int);
        pre.lemma_wf_indexes(pre.player.id);
    }
    let pix = world.get_indexes(world.player.id).unwrap();
    let pi = pix.character.unwrap();
    let mut msg = String::from_str("The Blasting Cartridge explodes, crushing everything within ");
    msg.append(int_to_string(cfg::BLASTING_RADIUS).as_str());
    msg.append(" tiles!");
    world.add_log(cfg::color_orange(), msg);
    let ghost w1 = world@;
    proof {
        pre.lemma_with_log(explosion_msg(), cfg::color_orange());
    }
    let mut xp_to_gain: i32 = 0;
    let mut i: usize = 0;
    while i < targets.len()
        invariant
            w1 == pre.with_log(explosion_msg(), cfg::color_orange()),
            pre.wf(),
            blast_fits(pre, x as int, y as int),
            targets@ == blast_targets(pre, pre.entities.len() as int, x as int, y as int),
            targets@.len() <= pre.entities.len(),
            forall|j: int|
                0 <= j < targets@.len() ==> {
                    let t = #[trigger] targets@[j];
                    &&& pre.indexes_wf(t.1)
                    &&& in_blast(pre, t, x as int, y as int)
                },
            i <= targets@.len(),
            world@.wf(),
            world@ == blasted(w1, targets@, i as int).0,
            xp_to_gain == blasted(w1, targets@, i as int).1,
            world@.id_count == w1.id_count + i,
            world@.player == pre.player,
            world@.map_objects == pre.map_objects,
            world@.items == pre.items,
            world@.characters.len() == pre.characters.len(),
            pi as int == pre.ix(pre.player.id).character.unwrap(),
        decreases targets@.len() - i,
    {
        let (tid, tix) = targets[i];
        proof {
            assert(pre.indexes_wf(targets@[i as int].1));
            assert(in_blast(pre, targets@[i as int], x as int, y as int));
        }
        let ci = tix.character.unwrap();
        let ghost prev = world@;
        proof {
            let (v, g) = blasted(w1, targets@, i as int);
            assert(v == prev && g == xp_to_gain);
        }
        let mut target = world.characters[ci];
        let r = take_damage(&mut target, cfg::BLASTING_DAMAGE);
        world.characters.set(ci, target);
        proof {
            assert forall|k: int| 0 <= k < world@.entities.len() implies world@.indexes_wf(
                #[trigger] world@.entities[k].1,
            ) by {
                assert(prev.indexes_wf(prev.entities[k].1));
            }
        }
        if let Some(xp) = r {
            if tid != world.player.id {
                // no reward for the player burning itself
                xp_to_gain = xp_to_gain + xp;
            }
        }
        let target_name = world.map_objects[tix.map_object.unwrap()].name.clone();
        let mut msg = String::from_str("The ");
        msg.append(target_name.as_str());
        msg.append(" gets damaged for ");
        msg.append(int_to_string(cfg::BLASTING_DAMAGE).as_str());
        msg.append(" hit points.");
        proof {
            assert(prev.wf());
            assert(world@.entities == prev.entities);
            assert(world@.symbols == prev.symbols);
            assert(world@.ids_wf());
            assert(world@.wf());
            assert(w1.id_count == pre.id_count + 1);
            assert(world@.id_count < u32::MAX);
        }
        world.add_log(cfg::color_lightest_grey(), msg);
        i = i + 1;
        proof {
            assert(world@.characters =~= blasted(w1, targets@, i as int).0.characters);
        }
    }
    let mut player = world.characters[pi];
    player.xp = player.xp + xp_to_gain;
    world.characters.set(pi, player);
    UseResult::UsedUp
}

/// Using equipment: it is taken off if worn; otherwise whatever the player
/// wears in its slot is taken off first, and it is put on.
pub open spec fn toggled(w: WorldView, id: u32) -> (WorldView, UseResult) {
    let e = w.eqp_of(id).unwrap();
    if e.equipped {
        (dequipped(w, id), UseResult::UsedAndKept)
    } else {
        let w1 = match choose|r: Option<u32>| w.is_equipped_in_slot(e.slot, r) {
            Some(c) => dequipped(w, c),
            None => w,
        };
        (equipped(w1, id), UseResult::UsedAndKept)
    }
}

/// The number of messages toggling the equipment `id` logs: one, and one
/// more when what is worn in its slot must be taken off first.
pub open spec fn toggle_logs(w: WorldView, id: u32) -> int {
    let e = w.eqp_of(id).unwrap();
    if !e.equipped && (choose|r: Option<u32>| w.is_equipped_in_slot(e.slot, r)) is Some {
        2
    } else {
        1
    }
}

/// The number of messages dropping the item `id` logs: one, and one more
/// when it is worn and taken off first.
pub open spec fn drop_logs(w: WorldView, id: u32) -> int {
    if w.eqp_of(id) matches Some(e) && e.equipped {
        2
    } else {
        1
    }
}

fn toggle_equipment(inventory_id: u32, world: &mut World) -> (r: UseResult)
    requires
        old(world)@.wf(),
        old(world).id_count + toggle_logs(old(world)@, inventory_id) <= u32::MAX,
        old(world)@.is_item(inventory_id),
        old(world)@.eqp_of(inventory_id) is Some,
    ensures
        final(world)@.items == old(world)@.items,
        final(world).id_count <= old(world).id_count + 2 + old(world)@.entities.len(),
        final(world)@.wf(),
        (final(world)@, r) == toggled(old(world)@, inventory_id),
{
    let ghost pre = world@;
    let ix = world.get_indexes(inventory_id).unwrap();
    proof {
        pre.lemma_wf_indexes(inventory_id);
    }
    let equipment = world.equipments[ix.equipment.unwrap()];
    if equipment.equipped {
        crate::game::dequip(inventory_id, world);
    } else {
        // if the slot is already being used, dequip whatever is there first
        let current = world.get_equipped_in_slot(equipment.slot);
        proof {
            crate::systems::player_action::lemma_equipped_unique(pre, equipment.slot, current);
        }
        if let Some(current) = current {
            proof {
                crate::systems::player_action::lemma_slot_item_is_item(pre, equipment.slot, current);
            }
            crate::game::dequip(current, world);
            proof {
                assert(world@.id_count == pre.id_count + 1 || world@.id_count == pre.id_count);
                assert(world@.indexes_of(inventory_id) == pre.indexes_of(inventory_id)) by {
                    lemma_dequipped_keeps(pre, current, inventory_id);
                }
            }
        }
        crate::game::equip(inventory_id, world);
    }
    UseResult::UsedAndKept
}

/// Taking equipment off keeps the invariant and every entity.
pub proof fn lemma_dequipped_keeps(w: WorldView, id: u32, other: u32)
    requires
        w.wf(),
        w.id_count < u32::MAX,
        w.is_named(id),
        w.has(other),
    ensures
        dequipped(w, id).indexes_of(other) == w.indexes_of(other),
        dequipped(w, id).id_count <= w.id_count + 1,
{
    let name = w.mobj_of(id).name;
    match w.ix(id).equipment {
        Some(k) => {
            let e = w.equipments[k as int];
            if e.equipped {
                let m = crate::game::dequip_msg(name, e.slot);
                w.lemma_with_log(m, cfg::color_dark_sky());
                w.with_log(m, cfg::color_dark_sky()).lemma_same_entities(dequipped(w, id));
            }
        },
        None => {
            w.lemma_with_log(crate::game::cannot_dequip_msg(name), cfg::color_orange());
        },
    }
}

pub open spec fn dropped_msg(name: Seq<char>) -> Seq<char> {
    "You dropped a "@ + name + "."@
}

/// Dropping an item: equipment is taken off, and the item lies visible under
/// the player, owned by nobody.
pub open spec fn item_dropped(w: WorldView, id: u32) -> WorldView {
    let w1 = if w.eqp_of(id) is Some {
        dequipped(w, id)
    } else {
        w
    };
    let (px, py) = player_pos(w1);
    let ix = w1.ix(id);
    let si = ix.symbol.unwrap() as int;
    let mi = ix.map_object.unwrap() as int;
    let ii = ix.item.unwrap() as int;
    let w2 = WorldView {
        items: w1.items.update(ii, OwnedItem { owner: 0, ..w1.items[ii] }),
        map_objects: w1.map_objects.update(mi, MapObjectView { hidden: false, ..w1.map_objects[mi] }),
        symbols: w1.symbols.update(si, Symbol { x: px as i32, y: py as i32, ..w1.symbols[si] }),
        ..w1
    };
    w2.with_log(dropped_msg(w1.map_objects[mi].name), cfg::color_dark_sky())
}

fn drop_item(inventory_id: u32, world: &mut World)
    requires
        old(world)@.wf(),
        old(world).id_count + drop_logs(old(world)@, inventory_id) <= u32::MAX,
        old(world)@.is_item(inventory_id),
        old(world)@.is_character(old(world)@.player.id),
    ensures
        final(world)@.wf(),
        final(world)@ == item_dropped(old(world)@, inventory_id),
        // the item lies visible under the player, owned by nobody, not worn
        final(world)@.is_item(inventory_id),
        final(world)@.item_of(inventory_id).owner == 0,
        !final(world)@.mobj_of(inventory_id).hidden,
        final(world)@.sym_of(inventory_id).x == old(world)@.sym_of(old(world)@.player.id).x,
        final(world)@.sym_of(inventory_id).y == old(world)@.sym_of(old(world)@.player.id).y,
        final(world)@.eqp_of(inventory_id) matches Some(e) ==> !e.equipped,
{
    let ghost pre = world@;
    let ix = world.get_indexes(inventory_id).unwrap();
    proof {
        pre.lemma_wf_indexes(inventory_id);
    }
    if ix.equipment.is_some() {
        crate::game::dequip(inventory_id, world);
        proof {
            lemma_dequipped_keeps(pre, inventory_id, inventory_id);
            lemma_dequipped_keeps(pre, inventory_id, pre.player.id);
        }
    }
    let ghost w1 = world@;
    let player_symbol = world.player_sym();
    let (player_x, player_y) = (player_symbol.x, player_symbol.y);
    proof {
        w1.lemma_wf_indexes(w1.player.id);
        w1.lemma_symbol_on_grid(w1.ix(w1.player.id).symbol.unwrap() as int);
    }
    let mut item = world.items[ix.item.unwrap()];
    item.owner = 0;
    world.items.set(ix.item.unwrap(), item);
    world.map_objects[ix.map_object.unwrap()].hidden = false;
    let mut symbol = world.symbols[ix.symbol.unwrap()];
    symbol.x = player_x;
    symbol.y = player_y;
    world.symbols.set(ix.symbol.unwrap(), symbol);
    let name = world.map_objects[ix.map_object.unwrap()].name.clone();
    let mut msg = String::from_str("You dropped a ");
    msg.append(name.as_str());
    msg.append(".");
    proof {
        let mi = ix.map_object.unwrap() as int;
        assert(world@.map_objects =~= w1.map_objects.update(mi, MapObjectView { hidden: false, ..w1.map_objects[mi] }));
        w1.lemma_same_entities(world@);
    }
    let ghost w3 = world@;
    world.add_log(cfg::color_dark_sky(), msg);
    proof {
        w3.lemma_with_log(msg@, cfg::color_dark_sky());
        assert(world@.indexes_of(inventory_id) == w3.indexes_of(inventory_id));
        assert(w3.indexes_of(inventory_id) == pre.indexes_of(inventory_id));
        assert(w1.sym_of(w1.player.id) == pre.sym_of(pre.player.id));
    }
}

/// Items of these kinds are worn or held, and have an equipment component.
pub open spec fn is_equipment_kind(item: Item) -> bool {
    item == Item::Melee || item == Item::Clothing || item == Item::Ranged
}

/// What using the item `id` does before the item itself is dealt with.
pub open spec fn on_use(w: WorldView, id: u32, by_targeting: bool) -> (WorldView, UseResult) {
    match w.item_of(id).item {
        Item::Medkit => medkit_used(w),
        Item::SlingshotAmmo => slingshot_used(w),
        Item::Brick => brick_used(w, by_targeting),
        Item::BlastingCartridge => cartridge_used(w, by_targeting),
        _ => toggled(w, id),
    }
}

pub open spec fn cancelled_msg() -> Seq<char> {
    "Cancelled"@
}

/// The world after the player uses the item `id`: an item used up is
/// destroyed (its owner cleared and the entity removed), a cancelled use is
/// reported, and an item that needs a target makes the player aim it.
pub open spec fn item_used(w: WorldView, id: u32, by_targeting: bool) -> WorldView {
    let (w1, r) = on_use(w, id, by_targeting);
    match r {
        UseResult::UsedUp => {
            let ii = w.ix(id).item.unwrap() as int;
            WorldView { items: w1.items.update(ii, OwnedItem { owner: 0, ..w1.items[ii] }), ..w1 }.without(id)
        },
        UseResult::UsedAndKept => w1,
        UseResult::Cancelled => w1.with_log(cancelled_msg(), cfg::color_lightest_grey()),
        UseResult::NeedTargeting => WorldView {
            player: PlayerView { state: PlayerState::TargetingTile(id), ..w1.player },
            ..w1
        },
    }
}

/// The numbers that using the item `id` computes fit their types, and what
/// it reads is there: the map for a shot, free ids for the messages of
/// equipment put on or taken off, and one for the message of a cancelled use.
pub open spec fn use_fits(w: WorldView, id: u32, by_targeting: bool) -> bool {
    &&& match w.item_of(id).item {
        Item::Medkit => medkit_fits(w),
        Item::SlingshotAmmo => w.map_ready() && slingshot_fits(w),
        Item::Brick => w.id_count < u32::MAX,
        Item::BlastingCartridge => cartridge_fits(w, by_targeting),
        _ => w.id_count + toggle_logs(w, id) <= u32::MAX,
    }
    &&& on_use(w, id, by_targeting).1 == UseResult::Cancelled ==> on_use(w, id, by_targeting).0.id_count < u32::MAX
}

/// Using the item `id` looks at the player: to heal it, to shoot from where
/// it stands when an enemy is in view, or to throw from where it stands at
/// a clicked cell.
pub open spec fn player_needed(w: WorldView, id: u32, by_targeting: bool) -> bool {
    match w.item_of(id).item {
        Item::Medkit => true,
        Item::SlingshotAmmo => enemy_seen(w),
        Item::Brick => aims_at_click(w, by_targeting),
        Item::BlastingCartridge => aims_at_click(w, by_targeting),
        _ => false,
    }
}

/// What using the item `id` needs: the item (with its equipment if it is
/// worn), the player where it is looked at, a usable click, and numbers that
/// fit.
pub open spec fn use_ready(w: WorldView, id: u32, by_targeting: bool) -> bool {
    &&& player_needed(w, id, by_targeting) ==> w.is_character(w.player.id)
    &&& w.is_item(id)
    &&& (is_equipment_kind(w.item_of(id).item) ==> w.eqp_of(id) is Some)
    &&& aim_ok(w, by_targeting)
    &&& use_fits(w, id, by_targeting)
}

#[verifier::rlimit(40)]
#[verifier::spinoff_prover]
fn use_item(inventory_id: u32, world: &mut World, by_targeting: bool)
    requires
        old(world)@.wf(),
        use_ready(old(world)@, inventory_id, by_targeting),
    ensures
        final(world)@.wf(),
        final(world)@ == item_used(old(world)@, inventory_id, by_targeting),
        // an item used up is gone, with its owner cleared
        on_use(old(world)@, inventory_id, by_targeting).1 == UseResult::UsedUp ==> {
            &&& !final(world)@.has(inventory_id)
            &&& final(world)@.items[old(world)@.ix(inventory_id).item.unwrap() as int].owner == 0
        },
{
    let ghost pre = world@;
    let ix = world.get_indexes(inventory_id).unwrap();
    proof {
        pre.lemma_wf_indexes(inventory_id);
    }
    let ii = ix.item.unwrap();
    let result = match world.items[ii].item {
        Item::Medkit => use_medkit(world),
        Item::SlingshotAmmo => shoot_slingshot(world),
        Item::Brick => throw_brick(world, by_targeting),
        Item::BlastingCartridge => throw_blasting_cartridge(world, by_targeting),
        Item::Melee | Item::Clothing | Item::Ranged => toggle_equipment(inventory_id, world),
    };
    match result {
        UseResult::UsedUp => {
            // destroy after use
            let mut item = world.items[ii];
            item.owner = 0;
            world.items.set(ii, item);
            proof {
                let w1 = on_use(pre, inventory_id, by_targeting).0;
                assert(world@.entities == w1.entities);
                assert forall|k: int| 0 <= k < world@.entities.len() implies world@.indexes_wf(
                    #[trigger] world@.entities[k].1,
                ) by {
                    assert(w1.indexes_wf(w1.entities[k].1));
                }
            }
            let ghost before_removal = world@;
            world.remove_entity(inventory_id);
            proof {
                before_removal.lemma_without(inventory_id);
            }
        },
        UseResult::UsedAndKept => {},
        UseResult::Cancelled => {
            world.add_log(cfg::color_lightest_grey(), String::from_str("Cancelled"));
        },
        UseResult::NeedTargeting => {
            world.player.state = PlayerState::TargetingTile(inventory_id);
            proof {
                assert(world@.player.look_at =~= item_used(pre, inventory_id, by_targeting).player.look_at);
            }
        },
    }
}

/// The entity `e` is an item the player carries.
pub open spec fn carried_by_player(w: WorldView, e: (u32, Indexes)) -> bool {
    &&& e.1.symbol is Some
    &&& e.1.map_object is Some
    &&& e.1.item is Some
    &&& w.items[e.1.item.unwrap() as int].owner == w.player.id
}

/// The ids of the items the player carries among the first `n` entities.
pub open spec fn inventory_ids(w: WorldView, n: int) -> Seq<u32>
    decreases n,
{
    if n <= 0 {
        Seq::empty()
    } else {
        let s = inventory_ids(w, n - 1);
        if carried_by_player(w, w.entities[n - 1]) {
            s.push(w.entities[n - 1].0)
        } else {
            s
        }
    }
}

/// How an item of the inventory is listed: by its name, with the slot it is
/// worn on if it is equipped.
pub open spec fn item_entry(w: WorldView, ix: Indexes) -> Seq<char> {
    let name = w.map_objects[ix.map_object.unwrap() as int].name;
    match ix.equipment {
        Some(k) => if w.equipments[k as int].equipped {
            name + " (on "@ + slot_name(w.equipments[k as int].slot) + ")"@
        } else {
            name
        },
        None => name,
    }
}

/// The entries of the items the player carries among the first `n` entities.
pub open spec fn inventory_entries(w: WorldView, n: int) -> Seq<Seq<char>>
    decreases n,
{
    if n <= 0 {
        Seq::empty()
    } else {
        let s = inventory_entries(w, n - 1);
        if carried_by_player(w, w.entities[n - 1]) {
            s.push(item_entry(w, w.entities[n - 1].1))
        } else {
            s
        }
    }
}

pub open spec fn empty_inventory_msg() -> Seq<char> {
    "Inventory is empty."@
}

/// The options of the inventory menu: one per carried item, or a note that
/// there is none.
pub open spec fn menu_options(w: WorldView) -> Seq<Seq<char>> {
    let entries = inventory_entries(w, w.entities.len() as int);
    if entries.len() == 0 {
        seq![empty_inventory_msg()]
    } else {
        entries
    }
}

pub proof fn lemma_inventory_ids(w: WorldView, n: int)
    requires
        w.wf(),
        0 <= n <= w.entities.len(),
    ensures
        inventory_ids(w, n).len() == inventory_entries(w, n).len(),
        forall|j: int|
            0 <= j < inventory_ids(w, n).len() ==> {
                let id = #[trigger] inventory_ids(w, n)[j];
                &&& w.is_item(id)
                &&& w.item_of(id).owner == w.player.id
            },
    decreases n,
{
    if n > 0 {
        lemma_inventory_ids(w, n - 1);
        w.lemma_indexes_at(n - 1);
    }
}

/// Shows a menu with each item of the inventory as an option.
fn add_inventory_menu(world: &mut World, kind: DialogKind, header: String)
    requires
        old(world)@.wf(),
        old(world).id_count < u32::MAX,
    ensures
        final(world)@.wf(),
        final(world)@ == old(world)@.with_dialog(
            DialogView { kind, header: header@, options: menu_options(old(world)@), width: cfg::INVENTORY_WIDTH },
        ),
{
    let ghost w = world@;
    let mut options: Vec<String> = Vec::new();
    let mut i: usize = 0;
    while i < world.entity_indexes.len()
        invariant
            w == world@,
            w.wf(),
            i <= w.entities.len(),
            options@.map_values(|o: String| o@) == inventory_entries(w, i as int),
        decreases w.entities.len() - i,
    {
        let ix = world.entity_indexes[i].1;
        proof {
            assert(w.indexes_wf(w.entities[i as int].1));
        }
        match (ix.symbol, ix.map_object, ix.item) {
            (Some(_), Some(moi), Some(ii)) => {
                if world.items[ii].owner == world.player.id {
                    let mut entry = world.map_objects[moi].name.clone();
                    if let Some(k) = ix.equipment {
                        if world.equipments[k].equipped {
                            entry.append(" (on ");
                            entry.append(world.equipments[k].slot.to_string().as_str());
                            entry.append(")");
                        }
                    }
                    let ghost before = options@;
                    options.push(entry);
                    proof {
                        assert(options@.map_values(|o: String| o@) =~= before.map_values(|o: String| o@).push(
                            entry@,
                        ));
                    }
                }
            },
            _ => {},
        }
        i = i + 1;
    }
    if options.len() == 0 {
        options.push(String::from_str("Inventory is empty."));
        proof {
            assert(options@.map_values(|o: String| o@) =~= seq![empty_inventory_msg()]);
        }
    }
    world.add_dialog_box(kind, header, options, cfg::INVENTORY_WIDTH);
}

/// The item the player picks with the `i`-th option of the inventory menu.
pub open spec fn selected_item(w: WorldView, i: int) -> Option<u32> {
    let ids = inventory_ids(w, w.entities.len() as int);
    if 0 <= i < ids.len() {
        Some(ids[i])
    } else {
        None
    }
}

/// The `i`-th item the player carries, in the order of the inventory menu.
fn nth_inventory_item(world: &World, i: usize) -> (r: Option<u32>)
    requires
        world@.wf(),
    ensures
        r == selected_item(world@, i as int),
{
    let ghost w = world@;
    let mut ids: Vec<u32> = Vec::new();
    let mut k: usize = 0;
    while k < world.entity_indexes.len()
        invariant
            w == world@,
            w.wf(),
            k <= w.entities.len(),
            ids@ == inventory_ids(w, k as int),
        decreases w.entities.len() - k,
    {
        let (id, ix) = world.entity_indexes[k];
        proof {
            assert(w.indexes_wf(w.entities[k as int].1));
        }
        match (ix.symbol, ix.map_object, ix.item) {
            (Some(_), Some(_), Some(ii)) => {
                if world.items[ii].owner == world.player.id {
                    ids.push(id);
                }
            },
            _ => {},
        }
        k = k + 1;
    }
    if i < ids.len() {
        Some(ids[i])
    } else {
        None
    }
}

/// The player opens the inventory, or the menu to drop an item, during its
/// turn.
pub open spec fn spec_is_opening_inventory(w: WorldView) -> bool {
    &&& w.player.state == PlayerState::MakingTurn
    &&& (w.player.action == PlayerAction::OpenInventory || w.player.action == PlayerAction::DropItem)
    &&& w.player_alive()
}

fn is_opening_inventory(world: &World) -> (r: bool)
    requires
        world@.wf(),
    ensures
        r == spec_is_opening_inventory(world@),
{
    (world.player.state == PlayerState::MakingTurn) && ((world.player.action == PlayerAction::OpenInventory)
        || (world.player.action == PlayerAction::DropItem)) && world.player_is_alive()
}

/// The kind of an inventory menu.
pub open spec fn spec_inventory_kind(d: DialogView) -> Option<DialogKind> {
    if d.kind == DialogKind::Inventory || d.kind == DialogKind::DropItem {
        Some(d.kind)
    } else {
        None
    }
}

fn inventory_kind(dialog_box: &DialogBox) -> (r: Option<DialogKind>)
    ensures
        r == spec_inventory_kind(dialog_box@),
{
    match dialog_box.kind {
        DialogKind::Inventory | DialogKind::DropItem => Some(dialog_box.kind),
        _ => None,
    }
}

/// The inventory menu on top of the dialogs, if there is one.
pub open spec fn opened_menu(w: WorldView) -> Option<DialogKind> {
    if w.dialogs.len() > 0 {
        spec_inventory_kind(w.dialogs.last())
    } else {
        None
    }
}

/// The item the player aims, once it has clicked a target or cancelled.
pub open spec fn spec_used_targetable_item(w: WorldView) -> Option<u32> {
    match w.player.state {
        PlayerState::TargetingTile(id) => match w.player.action {
            PlayerAction::ClickAt(..) | PlayerAction::Cancel => Some(id),
            _ => None,
        },
        _ => None,
    }
}

fn used_targetable_item(world: &World) -> (r: Option<u32>)
    ensures
        r == spec_used_targetable_item(world@),
{
    if let PlayerState::TargetingTile(inventory_id) = world.player.state {
        match world.player.action {
            PlayerAction::ClickAt(..) | PlayerAction::Cancel => Some(inventory_id),
            _ => None,
        }
    } else {
        None
    }
}

pub open spec fn use_header() -> Seq<char> {
    "Press the key next to an item to use it, or Esc to cancel."@
}

pub open spec fn drop_header() -> Seq<char> {
    "Press the key next to an item to drop it, or Esc to cancel.'"@
}

/// The world without its top dialog; the player goes back to its turn when
/// no dialog is left and `back` holds.
pub open spec fn closed_menu(w: WorldView, back: bool) -> WorldView {
    let d = if w.dialogs.len() > 0 {
        w.dialogs.drop_last()
    } else {
        w.dialogs
    };
    WorldView {
        dialogs: d,
        player: PlayerView {
            state: if d.len() == 0 && back { PlayerState::MakingTurn } else { w.player.state },
            ..w.player
        },
        ..w
    }
}

/// The world after a frame of the inventory system.
///
/// During its turn the player opens the inventory (or the menu to drop an
/// item). With such a menu on top, picking an option uses (or drops) that
/// item and closes the menu, and cancelling closes the menu. Once the player
/// has aimed an item that needs a target, the item is used.
pub open spec fn inventory_step(w: WorldView) -> WorldView {
    if spec_is_opening_inventory(w) {
        let (kind, header) = if w.player.action == PlayerAction::OpenInventory {
            (DialogKind::Inventory, use_header())
        } else {
            (DialogKind::DropItem, drop_header())
        };
        let w1 = w.with_dialog(DialogView { kind, header, options: menu_options(w), width: cfg::INVENTORY_WIDTH });
        WorldView { player: PlayerView { state: PlayerState::InDialog, ..w1.player }, ..w1 }
    } else if opened_menu(w) is Some {
        match w.player.action {
            PlayerAction::SelectMenuItem(i) => match selected_item(w, i as int) {
                Some(id) => {
                    let w1 = if opened_menu(w) == Some(DialogKind::Inventory) {
                        item_used(w, id, false)
                    } else {
                        item_dropped(w, id)
                    };
                    closed_menu(w1, w1.player.state == PlayerState::InDialog)
                },
                None => w,
            },
            PlayerAction::Cancel => closed_menu(w, true),
            _ => w,
        }
    } else {
        match spec_used_targetable_item(w) {
            Some(id) => {
                let w1 = item_used(w, id, true);
                WorldView { player: PlayerView { state: PlayerState::MakingTurn, ..w1.player }, ..w1 }
            },
            None => w,
        }
    }
}

/// What a frame of the inventory system needs: an item is used or dropped
/// only with the player in the world, the item's equipment where it is worn,
/// a usable click, and numbers that fit.
pub open spec fn inventory_ready(w: WorldView) -> bool {
    let picked = match w.player.action {
        PlayerAction::SelectMenuItem(i) => selected_item(w, i as int),
        _ => None,
    };
    let item = if spec_is_opening_inventory(w) {
        None
    } else if opened_menu(w) is Some {
        picked
    } else {
        spec_used_targetable_item(w)
    };
    &&& spec_is_opening_inventory(w) ==> w.id_count < u32::MAX
    &&& item matches Some(id) ==> {
        &&& (if opened_menu(w) == Some(DialogKind::DropItem) {
            true
        } else {
            player_needed(w, id, opened_menu(w) is None)
        }) ==> w.is_character(w.player.id)
        &&& w.is_item(id)
        &&& (is_equipment_kind(w.item_of(id).item) ==> w.eqp_of(id) is Some)
        &&& (w.player.action matches PlayerAction::ClickAt(x, y) ==> click_ok(w, x as int, y as int))
        &&& if opened_menu(w) == Some(DialogKind::DropItem) {
            w.id_count + drop_logs(w, id) <= u32::MAX
        } else {
            use_fits(w, id, opened_menu(w) is None)
        }
    }
}

#[verifier::rlimit(50)]
#[verifier::spinoff_prover]
pub fn update(world: &mut World)
    requires
        old(world)@.wf(),
        inventory_ready(old(world)@),
    ensures
        final(world)@.wf(),
        final(world)@ == inventory_step(old(world)@),
{
    let ghost pre = world@;
    let is_opening_inventory = is_opening_inventory(world);
    let opened_menu = match world.dialogs.last() {
        Some(d) => inventory_kind(d),
        None => None,
    };
    if is_opening_inventory {
        let (dialog_kind, menu_title) = match world.player.action {
            PlayerAction::OpenInventory => (
                DialogKind::Inventory,
                "Press the key next to an item to use it, or Esc to cancel.",
            ),
            _ => (DialogKind::DropItem, "Press the key next to an item to drop it, or Esc to cancel.'"),
        };
        add_inventory_menu(world, dialog_kind, String::from_str(menu_title));
        world.player.state = PlayerState::InDialog;
        proof {
            assert(world@.player.look_at =~= inventory_step(pre).player.look_at);
        }
    } else if let Some(dialog_kind) = opened_menu {
        let inventory_id = match world.player.action {
            PlayerAction::SelectMenuItem(i) => nth_inventory_item(world, i),
            PlayerAction::Cancel => {
                world.dialogs.pop();
                if world.dialogs.len() == 0 {
                    world.player.state = PlayerState::MakingTurn;
                }
                proof {
                    assert(world@.player.look_at =~= inventory_step(pre).player.look_at);
                    assert(world@.dialogs =~= inventory_step(pre).dialogs);
                }
                None
            },
            _ => None,
        };
        if let Some(inventory_id) = inventory_id {
            proof {
                lemma_inventory_ids(pre, pre.entities.len() as int);
            }
            match dialog_kind {
                DialogKind::Inventory => use_item(inventory_id, world, false),
                _ => drop_item(inventory_id, world),
            }
            let ghost w1 = world@;
            world.dialogs.pop();
            if world.dialogs.len() == 0 && world.player.state == PlayerState::InDialog {
                world.player.state = PlayerState::MakingTurn;
            }
            proof {
                assert(world@.player.look_at =~= closed_menu(w1, w1.player.state == PlayerState::InDialog).player.look_at);
                assert(world@.dialogs =~= closed_menu(w1, w1.player.state == PlayerState::InDialog).dialogs);
            }
        }
    } else if let Some(inventory_id) = used_targetable_item(world) {
        use_item(inventory_id, world, true);
        world.player.state = PlayerState::MakingTurn;
    }
}

/// Dropping an item right after picking it up puts it back as it was: on the
/// floor under the player, owned by nobody, visible, and not worn.
pub proof fn law_pick_up_then_drop(w: WorldView, id: u32)
    requires
        w.wf(),
        w.id_count + 4 <= u32::MAX,
        w.is_item(id),
        w.is_character(w.player.id),
        game::count_owned(w.items, w.player.id, w.items.len() as int) < cfg::INVENTORY_CAPACITY,
        w.item_of(id).owner == 0,
        !w.mobj_of(id).hidden,
        w.eqp_of(id) matches Some(e) ==> !e.equipped,
    ensures
        ({
            let post = item_dropped(crate::systems::map_interaction::picked_up(w, id), id);
            &&& post.is_item(id)
            &&& post.item_of(id) == w.item_of(id)
            &&& post.mobj_of(id) == w.mobj_of(id)
            &&& post.eqp_of(id) == w.eqp_of(id)
            &&& post.sym_of(id).x == w.sym_of(w.player.id).x
            &&& post.sym_of(id).y == w.sym_of(w.player.id).y
            &&& post.sym_of(id).glyph == w.sym_of(id).glyph
        }),
{
    let name = w.mobj_of(id).name;
    w.lemma_wf_indexes(id);
    w.lemma_wf_indexes(w.player.id);
    let ii = w.ix(id).item.unwrap() as int;
    let mi = w.ix(id).map_object.unwrap() as int;
    let w1 = w.with_log(crate::systems::map_interaction::picked_msg(name), cfg::color_green());
    w.lemma_with_log(crate::systems::map_interaction::picked_msg(name), cfg::color_green());
    assert(w1.indexes_of(id) == w.indexes_of(id));
    assert(w1.indexes_of(w.player.id) == w.indexes_of(w.player.id));
    let w2 = WorldView {
        items: w1.items.update(ii, OwnedItem { owner: w.player.id, ..w1.items[ii] }),
        map_objects: w1.map_objects.update(mi, MapObjectView { hidden: true, ..w1.map_objects[mi] }),
        ..w1
    };
    w1.lemma_same_entities(w2);
    assert forall|k: int| 0 <= k < w2.entities.len() implies w2.indexes_wf(#[trigger] w2.entities[k].1) by {
        assert(w1.indexes_wf(w1.entities[k].1));
    }
    let w3 = crate::systems::map_interaction::picked_up(w, id);
    // the pick-up may put the item on
    assert(w3.wf() && w3.indexes_of(id) == w.indexes_of(id) && w3.indexes_of(w.player.id) == w.indexes_of(w.player.id)
        && w3.items == w2.items && w3.map_objects == w2.map_objects && w3.symbols == w.symbols
        && w3.id_count <= w.id_count + 2 && (w3.eqp_of(id) matches Some(e) ==> e == Equipment { equipped: e.equipped, ..w.eqp_of(id).unwrap() })
        && (w3.eqp_of(id) is Some <==> w.eqp_of(id) is Some)) by {
        match w.eqp_of(id) {
            Some(e) => {
                if e.slot != Slot::Ammo && (choose|r: Option<u32>| w2.is_equipped_in_slot(e.slot, r)) is None {
                    let k = w.ix(id).equipment.unwrap() as int;
                    let wl = w2.with_log(crate::game::equip_msg(name, e.slot), cfg::color_green());
                    w2.lemma_with_log(crate::game::equip_msg(name, e.slot), cfg::color_green());
                    assert(w2.mobj_of(id).name == name);
                    wl.lemma_same_entities(w3);
                    assert(wl.indexes_of(id) == w2.indexes_of(id));
                    assert(wl.indexes_of(w.player.id) == w2.indexes_of(w.player.id));
                    assert forall|j: int| 0 <= j < w3.entities.len() implies w3.indexes_wf(#[trigger] w3.entities[j].1) by {
                        assert(wl.indexes_wf(wl.entities[j].1));
                    }
                }
            },
            None => {},
        }
    }
    // the drop takes it off again
    let w4 = if w3.eqp_of(id) is Some { crate::game::dequipped(w3, id) } else { w3 };
    assert(w4.wf() && w4.indexes_of(id) == w.indexes_of(id) && w4.indexes_of(w.player.id) == w.indexes_of(w.player.id)
        && w4.items == w2.items && w4.map_objects == w2.map_objects && w4.symbols == w.symbols
        && w4.eqp_of(id) == w.eqp_of(id)) by {
        if w3.eqp_of(id) is Some {
            let k = w.ix(id).equipment.unwrap() as int;
            let e3 = w3.equipments[k];
            if e3.equipped {
                let m = crate::game::dequip_msg(w3.mobj_of(id).name, e3.slot);
                let wl = w3.with_log(m, cfg::color_dark_sky());
                w3.lemma_with_log(m, cfg::color_dark_sky());
                wl.lemma_same_entities(w4);
                assert(wl.indexes_of(id) == w3.indexes_of(id));
                assert(wl.indexes_of(w.player.id) == w3.indexes_of(w.player.id));
                assert forall|j: int| 0 <= j < w4.entities.len() implies w4.indexes_wf(#[trigger] w4.entities[j].1) by {
                    assert(wl.indexes_wf(wl.entities[j].1));
                }
            }
        }
    }
    assert(item_dropped(w3, id) == (if w3.eqp_of(id) is Some { item_dropped(w4, id) } else { item_dropped(w4, id) })) by {
        assert(w4 == (if w3.eqp_of(id) is Some { crate::game::dequipped(w3, id) } else { w3 }));
    }
    let si = w.ix(id).symbol.unwrap() as int;
    let (px, py) = player_pos(w4);
    assert(px == w.sym_of(w.player.id).x && py == w.sym_of(w.player.id).y);
    let w5 = WorldView {
        items: w4.items.update(ii, OwnedItem { owner: 0, ..w4.items[ii] }),
        map_objects: w4.map_objects.update(mi, MapObjectView { hidden: false, ..w4.map_objects[mi] }),
        symbols: w4.symbols.update(si, Symbol { x: px as i32, y: py as i32, ..w4.symbols[si] }),
        ..w4
    };
    w4.lemma_same_entities(w5);
    assert forall|k: int| 0 <= k < w5.entities.len() implies w5.indexes_wf(#[trigger] w5.entities[k].1) by {
        assert(w4.indexes_wf(w4.entities[k].1));
    }
    assert forall|k: int| 0 <= k < w5.symbols.len() implies crate::engine::game::on_grid(
        #[trigger] w5.symbols[k].x as int,
        w5.symbols[k].y as int,
    ) by {
        w.lemma_symbol_on_grid(w.ix(w.player.id).symbol.unwrap() as int);
        if k != si {
            assert(crate::engine::game::on_grid(w4.symbols[k].x as int, w4.symbols[k].y as int));
        }
    }
    let dm = dropped_msg(w4.map_objects[mi].name);
    w5.lemma_with_log(dm, cfg::color_dark_sky());
    let post = w5.with_log(dm, cfg::color_dark_sky());
    assert(post == item_dropped(w3, id));
    assert(post.indexes_of(id) == w.indexes_of(id));
    assert(post.items[ii] == w.items[ii]);
    assert(post.map_objects[mi] == w.map_objects[mi]);
}

fn check_click(world: &World, x: i32, y: i32) -> (r: bool)
    ensures
        r == click_ok(world@, x as int, y as int),
{
    let row = (y as i128) * 68;
    assert(-0x100_0000_0000 <= row <= 0x100_0000_0000);
    let index = row + (x as i128);
    i32::MIN as i128 <= row && row <= i32::MAX as i128 && i32::MIN as i128 <= index && index <= i32::MAX as i128
        && 0 <= index && index < world.map.len() as i128
}

/// Whether the numbers of a blast at `(x, y)` fit: the blast is run on a
/// copy of the characters, checking each step.
#[verifier::rlimit(40)]
#[verifier::spinoff_prover]
fn check_blast_fits(world: &World, x: i32, y: i32) -> (r: bool)
    requires
        world@.wf(),
        world@.is_character(world@.player.id),
    ensures
        r == blast_fits(world@, x as int, y as int),
{
    let ghost w = world@;
    let targets = find_blast_targets(world, x, y);
    proof {
        lemma_blast_targets(w, w.entities.len() as int, x as int, y as int);
        w.lemma_wf_indexes(w.player.id);
    }
    if world.id_count as u128 + 1 + targets.len() as u128 > u32::MAX as u128 {
        return false;
    }
    let ghost w1 = w.with_log(explosion_msg(), cfg::color_orange());
    let mut chars: Vec<Character> = Vec::new();
    let mut j: usize = 0;
    while j < world.characters.len()
        invariant
            j <= world@.characters.len(),
            chars@ =~= world@.characters.subrange(0, j as int),
        decreases world@.characters.len() - j,
    {
        chars.push(world.characters[j]);
        j = j + 1;
    }
    let pid = world.player.id;
    let pi = world.get_indexes(pid).unwrap().character.unwrap();
    let mut gain: i32 = 0;
    let mut i: usize = 0;
    while i < targets.len()
        invariant
            w == world@,
            w.wf(),
            w1 == w.with_log(explosion_msg(), cfg::color_orange()),
            targets@ == blast_targets(w, w.entities.len() as int, x as int, y as int),
            forall|k: int|
                0 <= k < targets@.len() ==> {
                    let t = #[trigger] targets@[k];
                    &&& w.indexes_wf(t.1)
                    &&& in_blast(w, t, x as int, y as int)
                },
            pid == w.player.id,
            i <= targets@.len(),
            chars@ == blasted(w1, targets@, i as int).0.characters,
            chars@.len() == w.characters.len(),
            gain == blasted(w1, targets@, i as int).1,
            forall|k: int|
                0 <= k < i ==> {
                    let (v, g) = #[trigger] blasted(w1, targets@, k);
                    &&& v.characters[targets@[k].1.character.unwrap() as int].hp - cfg::BLASTING_DAMAGE >= i32::MIN
                    &&& i32::MIN <= g + blast_gain(v, targets@[k], w.player.id) <= i32::MAX
                },
        decreases targets@.len() - i,
    {
        let (tid, tix) = targets[i];
        proof {
            assert(w.indexes_wf(targets@[i as int].1));
        }
        let ci = tix.character.unwrap();
        let ghost vg = blasted(w1, targets@, i as int);
        let mut c = chars[ci];
        if (c.hp as i64) - (cfg::BLASTING_DAMAGE as i64) < i32::MIN as i64 {
            proof {
                assert(vg.0.characters[ci as int].hp - cfg::BLASTING_DAMAGE < i32::MIN);
            }
            return false;
        }
        let died = take_damage(&mut c, cfg::BLASTING_DAMAGE);
        chars.set(ci, c);
        if let Some(xp) = died {
            if tid != pid {
                let sum = gain as i64 + xp as i64;
                if sum < i32::MIN as i64 || sum > i32::MAX as i64 {
                    proof {
                        assert(blast_gain(vg.0, targets@[i as int], w.player.id) == xp);
                    }
                    return false;
                }
                gain = sum as i32;
            }
        }
        proof {
            let v = vg.0;
            let t = targets@[i as int];
            assert(blasted(w1, targets@, i + 1) == (blast_hit(v, t), vg.1 + blast_gain(v, t, w.player.id)));
            assert(chars@ =~= blast_hit(v, t).characters);
        }
        i = i + 1;
    }
    proof {
        assert(w1.characters == w.characters);
    }
    let xp = chars[pi].xp as i64 + gain as i64;
    i32::MIN as i64 <= xp && xp <= i32::MAX as i64
}

/// Whether the numbers that using the item `id` computes fit.
#[verifier::rlimit(40)]
#[verifier::spinoff_prover]
fn check_use_fits(world: &World, id: u32, by_targeting: bool) -> (r: bool)
    requires
        world@.wf(),
        player_needed(world@, id, by_targeting) ==> world@.is_character(world@.player.id),
        world@.is_item(id),
        is_equipment_kind(world@.item_of(id).item) ==> world@.eqp_of(id) is Some,
        aim_ok(world@, by_targeting),
    ensures
        r == use_fits(world@, id, by_targeting),
{
    let ghost w = world@;
    let pid = world.player.id;
    let kind = world.get_item(id).unwrap().2.item;
    let n = world.id_count as u64;
    let room = u32::MAX as u64;
    match kind {
        Item::Medkit => {
            if !world.check_stat_fits(pid, Stat::MaxHp) {
                return false;
            }
            let hp = world.player_char().hp;
            if hp == world.max_hp(pid) {
                n + 2 <= room
            } else {
                n + 1 <= room && hp as i64 + cfg::HEAL_AMOUNT as i64 <= i32::MAX as i64
            }
        },
        Item::SlingshotAmmo => {
            if world.map.len() != (cfg::MAP_WIDTH * cfg::MAP_HEIGHT) as usize {
                return false;
            }
            let closest = if any_enemy_seen(world) {
                closest_monster(cfg::SLINGSHOT_RANGE, world)
            } else {
                proof {
                    lemma_no_enemy_seen(w, w.entities.len() as int, range_bound(cfg::SLINGSHOT_RANGE as int));
                }
                None
            };
            match closest {
                Some(m) => {
                    proof {
                        w.lemma_wf_indexes(m);
                        w.lemma_wf_indexes(pid);
                    }
                    let mi = world.get_indexes(m).unwrap().character.unwrap();
                    let pi = world.get_indexes(pid).unwrap().character.unwrap();
                    let mc = world.characters[mi];
                    if n + 1 > room || (mc.hp as i64) - (cfg::SLINGSHOT_DAMAGE as i64) < i32::MIN as i64 {
                        return false;
                    }
                    if (mc.hp as i64) - (cfg::SLINGSHOT_DAMAGE as i64) <= 0 {
                        let pxp = if pi == mi { mc.xp } else { world.characters[pi].xp };
                        let sum = pxp as i64 + mc.xp as i64;
                        i32::MIN as i64 <= sum && sum <= i32::MAX as i64
                    } else {
                        true
                    }
                },
                None => n + 2 <= room,
            }
        },
        Item::Brick => {
            if !by_targeting {
                return n + 1 <= room;
            }
            match world.player.action {
                PlayerAction::ClickAt(x, y) => match target_monster(world, Some(cfg::BRICK_RANGE), x, y) {
                    Some(_) => n + 1 <= room,
                    None => n + 2 <= room,
                },
                _ => n + 1 <= room,
            }
        },
        Item::BlastingCartridge => {
            if n + 1 > room {
                return false;
            }
            if !by_targeting {
                return true;
            }
            match world.player.action {
                PlayerAction::ClickAt(x, y) => if target_tile(world, None, x, y) {
                    check_blast_fits(world, x, y)
                } else {
                    n + 1 <= room
                },
                _ => n + 1 <= room,
            }
        },
        _ => {
            let e = *world.get_item(id).unwrap().3.unwrap();
            if e.equipped {
                n + 1 <= room
            } else {
                let current = world.get_equipped_in_slot(e.slot);
                proof {
                    crate::systems::player_action::lemma_equipped_unique(w, e.slot, current);
                }
                if current.is_some() {
                    n + 2 <= room
                } else {
                    n + 1 <= room
                }
            }
        },
    }
}

fn is_equipment_item(item: Item) -> (r: bool)
    ensures
        r == is_equipment_kind(item),
{
    match item {
        Item::Melee | Item::Clothing | Item::Ranged => true,
        _ => false,
    }
}

/// Whether a frame of the inventory system can run.
#[verifier::rlimit(40)]
#[verifier::spinoff_prover]
pub fn is_ready(world: &World) -> (r: bool)
    requires
        world@.wf(),
    ensures
        r == inventory_ready(world@),
{
    let opening = is_opening_inventory(world);
    if opening && world.id_count == u32::MAX {
        return false;
    }
    let opened_menu = match world.dialogs.last() {
        Some(d) => inventory_kind(d),
        None => None,
    };
    let item = if opening {
        None
    } else if opened_menu.is_some() {
        match world.player.action {
            PlayerAction::SelectMenuItem(i) => nth_inventory_item(world, i),
            _ => None,
        }
    } else {
        used_targetable_item(world)
    };
    match item {
        Some(id) => {
            let item_ok = match world.get_item(id) {
                Some((_, _, it, e, _)) => !is_equipment_item(it.item) || e.is_some(),
                None => false,
            };
            let click = match world.player.action {
                PlayerAction::ClickAt(x, y) => check_click(world, x, y),
                _ => true,
            };
            if !(item_ok && click) {
                return false;
            }
            let has_player = world.get_character(world.player.id).is_some();
            if opened_menu == Some(DialogKind::DropItem) {
                if !has_player {
                    return false;
                }
                let worn = match world.get_item(id) {
                    Some((_, _, _, Some(e), _)) => e.equipped,
                    _ => false,
                };
                world.id_count as u64 + (if worn { 2u64 } else { 1u64 }) <= u32::MAX as u64
            } else {
                let by_targeting = opened_menu.is_none();
                let needed = match world.get_item(id).unwrap().2.item {
                    Item::Medkit => true,
                    Item::SlingshotAmmo => {
                        if world.map.len() != (cfg::MAP_WIDTH * cfg::MAP_HEIGHT) as usize {
                            return false;
                        }
                        any_enemy_seen(world)
                    },
                    Item::Brick | Item::BlastingCartridge => by_targeting && match world.player.action {
                        PlayerAction::ClickAt(..) => true,
                        _ => false,
                    },
                    _ => false,
                };
                if needed && !has_player {
                    return false;
                }
                check_use_fits(world, id, by_targeting)
            }
        },
        None => true,
    }
}

} // verus!
