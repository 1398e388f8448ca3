use crate::cfg;
use crate::cmtp::{Character, Item, PlayerAction, PlayerState, PlayerView, Slot};
use crate::engine::entity::Indexes;
use crate::engine::game::{check_on_grid, first, is_first, lemma_first, on_grid, World, WorldView};
use crate::game::{attack_by, attack_fits, attacked, check_attack_fits, move_by, moved_by};
use vstd::prelude::*;

verus! {

/// The map index of `(x, y)` is valid whenever the position is not beyond the
/// right or bottom edge, where `cell_in_fov` looks the cell up.
pub open spec fn cell_index_ok(w: WorldView, x: int, y: int) -> bool {
    (x < cfg::MAP_WIDTH && y < cfg::MAP_HEIGHT) ==> 0 <= y * cfg::MAP_WIDTH + x < w.map.len()
}

/// The cell at `(x, y)` is in the player's field of view.
pub open spec fn spec_cell_in_fov(w: WorldView, x: int, y: int) -> bool {
    if x >= cfg::MAP_WIDTH || y >= cfg::MAP_HEIGHT {
        false
    } else {
        w.map[y * cfg::MAP_WIDTH + x].in_fov
    }
}

fn cell_in_fov(world: &World, x: i32, y: i32) -> (r: bool)
    requires
        cell_index_ok(world@, x as int, y as int),
    ensures
        r == spec_cell_in_fov(world@, x as int, y as int),
{
    if (x >= cfg::MAP_WIDTH) || (y >= cfg::MAP_HEIGHT) {
        return false;
    }
    let index_in_map = (y * cfg::MAP_WIDTH + x) as usize;
    world.map[index_in_map].in_fov
}

fn is_ranged_weapon(item: Item) -> (r: bool)
    ensures
        r == (item == Item::Ranged),
{
    match item {
        Item::Ranged => true,
        _ => false,
    }
}

pub open spec fn signum(v: int) -> int {
    if v > 0 {
        1
    } else if v < 0 {
        -1
    } else {
        0
    }
}

/// The player holds a ranged weapon in its hands.
pub open spec fn has_ranged(w: WorldView, slot_item: Option<u32>) -> bool {
    slot_item matches Some(id) && w.item_of(id).item == Item::Ranged
}

/// The step a click at `(x, y)` asks for: straight there with a ranged
/// weapon in hand, otherwise one tile towards it.
pub open spec fn click_delta(w: WorldView, x: int, y: int) -> (int, int) {
    let s = w.sym_of(w.player.id);
    let (dx, dy) = (x - s.x, y - s.y);
    if has_ranged(w, choose|r: Option<u32>| w.is_equipped_in_slot(Slot::Hands, r)) {
        (dx, dy)
    } else {
        (signum(dx), signum(dy))
    }
}

/// The differences between a clicked position and the player's, computed in
/// `i32`, fit it.
pub open spec fn click_fits(w: WorldView, x: int, y: int) -> bool {
    let s = w.sym_of(w.player.id);
    &&& i32::MIN <= x - s.x <= i32::MAX
    &&& i32::MIN <= y - s.y <= i32::MAX
}

fn delta_by_click(world: &World, x: i32, y: i32) -> (r: (i32, i32))
    requires
        world@.wf(),
        world@.is_character(world@.player.id),
        click_fits(world@, x as int, y as int),
    ensures
        r.0 == click_delta(world@, x as int, y as int).0,
        r.1 == click_delta(world@, x as int, y as int).1,
{
    let px = world.player_sym().x;
    let py = world.player_sym().y;
    proof {
        world@.lemma_wf_indexes(world@.player.id);
    }
    let (dx, dy) = (x - px, y - py);
    let slot_item = world.get_equipped_in_slot(Slot::Hands);
    proof {
        lemma_equipped_unique(world@, Slot::Hands, slot_item);
    }
    let player_has_ranged = match slot_item {
        Some(id) => {
            proof {
                lemma_slot_item_is_item(world@, Slot::Hands, id);
            }
            match world.get_item(id) {
                Some((_, _, it, _, _)) => is_ranged_weapon(it.item),
                None => false,
            }
        },
        None => false,
    };
    if player_has_ranged {
        (dx, dy)
    } else {
        let sx: i32 = if dx > 0 { 1 } else if dx < 0 { -1 } else { 0 };
        let sy: i32 = if dy > 0 { 1 } else if dy < 0 { -1 } else { 0 };
        (sx, sy)
    }
}

pub proof fn lemma_equipped_unique(w: WorldView, slot: Slot, r: Option<u32>)
    requires
        w.is_equipped_in_slot(slot, r),
    ensures
        (choose|r2: Option<u32>| w.is_equipped_in_slot(slot, r2)) == r,
{
    let pred = |e: (u32, Indexes)| w.fills_slot(e.1, slot);
    assert(is_first(w.entities, pred, r));
    let c = choose|r2: Option<u32>| w.is_equipped_in_slot(slot, r2);
    assert(w.is_equipped_in_slot(slot, c));
    assert(is_first(w.entities, pred, c));
    lemma_first(w.entities, pred, r);
    lemma_first(w.entities, pred, c);
}

pub proof fn lemma_slot_item_is_item(w: WorldView, slot: Slot, id: u32)
    requires
        w.wf(),
        w.is_equipped_in_slot(slot, Some(id)),
    ensures
        w.is_item(id),
{
    let p = choose|p: int| 0 <= p < w.entities.len() && #[trigger] w.entities[p].0 == id
        && w.fills_slot(w.entities[p].1, slot) && forall|q: int| 0 <= q < p ==> !w.fills_slot(#[trigger] w.entities[q].1, slot);
    w.lemma_indexes_at(p);
}

/// The entity `e` is a character other than the player standing at `(x, y)`.
pub open spec fn target_pred(w: WorldView, x: int, y: int) -> spec_fn((u32, Indexes)) -> bool {
    |e: (u32, Indexes)|
        e.1.symbol is Some && e.1.map_object is Some && e.1.character is Some && e.1.ai is Some
            && w.symbols[e.1.symbol.unwrap() as int].x == x && w.symbols[e.1.symbol.unwrap() as int].y == y
            && e.0 != w.player.id
}

/// The player faces the way it moves.
pub open spec fn faced(c: Character, dx: int, dy: int) -> Character {
    if dy > 0 || (dy == 0 && dx < 0) {
        Character { looking_right: false, ..c }
    } else if dy < 0 || (dy == 0 && dx > 0) {
        Character { looking_right: true, ..c }
    } else {
        c
    }
}

/// The world after the player steps by `(dx, dy)`: it attacks the first
/// character standing there, or else moves there if it can.
pub open spec fn player_stepped(w: WorldView, dx: int, dy: int) -> WorldView {
    let p = w.player.id;
    let s = w.sym_of(p);
    let ci = w.ix(p).character.unwrap() as int;
    let w1 = WorldView { characters: w.characters.update(ci, faced(w.characters[ci], dx, dy)), ..w };
    match first(w1.entities, target_pred(w1, s.x + dx, s.y + dy)) {
        Some(t) => attacked(w1, p, t),
        None => moved_by(w1, p, dx, dy),
    }
}

pub open spec fn direction(a: PlayerAction) -> Option<(int, int)> {
    match a {
        PlayerAction::GoToUp => Some((0, -1)),
        PlayerAction::GoToDown => Some((0, 1)),
        PlayerAction::GoToLeft => Some((-1, 0)),
        PlayerAction::GoToRight => Some((1, 0)),
        PlayerAction::GoToUpLeft => Some((-1, -1)),
        PlayerAction::GoToUpRight => Some((1, -1)),
        PlayerAction::GoToDownLeft => Some((-1, 1)),
        PlayerAction::GoToDownRight => Some((1, 1)),
        _ => None,
    }
}

/// Each move key goes one cell along the compass on the screen: right adds 1
/// to x, left takes 1 from it, up takes 1 from y and down adds 1 to it; the
/// others leave that coordinate. With nobody standing at the destination
/// and nothing blocking it, the player's turn takes it there, and it faces
/// left for a move left or down and right for a move right or up.
pub proof fn law_moves_follow_compass(w: WorldView)
    requires
        w.wf(),
        w.player.state == PlayerState::MakingTurn,
        w.player_alive(),
        ({
            let a = w.player.action;
            let s = w.sym_of(w.player.id);
            let gx = if a == PlayerAction::GoToRight || a == PlayerAction::GoToUpRight || a == PlayerAction::GoToDownRight {
                1int
            } else if a == PlayerAction::GoToLeft || a == PlayerAction::GoToUpLeft || a == PlayerAction::GoToDownLeft {
                -1int
            } else {
                0int
            };
            let gy = if a == PlayerAction::GoToUp || a == PlayerAction::GoToUpLeft || a == PlayerAction::GoToUpRight {
                -1int
            } else if a == PlayerAction::GoToDown || a == PlayerAction::GoToDownLeft || a == PlayerAction::GoToDownRight {
                1int
            } else {
                0int
            };
            &&& gx != 0 || gy != 0
            &&& i32::MIN <= s.x + gx <= i32::MAX
            &&& i32::MIN <= s.y + gy <= i32::MAX
            &&& first(w.entities, target_pred(w, s.x + gx, s.y + gy)) is None
            &&& !w.is_blocked(s.x + gx, s.y + gy)
        }),
    ensures
        ({
            let a = w.player.action;
            let s = w.sym_of(w.player.id);
            let post = player_action_step(w);
            let gx = if a == PlayerAction::GoToRight || a == PlayerAction::GoToUpRight || a == PlayerAction::GoToDownRight {
                1int
            } else if a == PlayerAction::GoToLeft || a == PlayerAction::GoToUpLeft || a == PlayerAction::GoToDownLeft {
                -1int
            } else {
                0int
            };
            let gy = if a == PlayerAction::GoToUp || a == PlayerAction::GoToUpLeft || a == PlayerAction::GoToUpRight {
                -1int
            } else if a == PlayerAction::GoToDown || a == PlayerAction::GoToDownLeft || a == PlayerAction::GoToDownRight {
                1int
            } else {
                0int
            };
            &&& post.sym_of(w.player.id).x == s.x + gx
            &&& post.sym_of(w.player.id).y == s.y + gy
            &&& post.char_of(w.player.id).looking_right == !(gy > 0 || (gy == 0 && gx < 0))
        }),
{
    let p = w.player.id;
    let s = w.sym_of(p);
    let a = w.player.action;
    w.lemma_wf_indexes(p);
    match direction(a) {
        Some((dx, dy)) => {
            let ci = w.ix(p).character.unwrap() as int;
            let w1 = WorldView { characters: w.characters.update(ci, faced(w.characters[ci], dx, dy)), ..w };
            assert(target_pred(w1, s.x + dx, s.y + dy) =~= target_pred(w, s.x + dx, s.y + dy));
            assert(w1.entities == w.entities && w1.symbols == w.symbols && w1.map == w.map
                && w1.map_objects == w.map_objects);
            assert(forall|xx: int, yy: int| w1.is_blocked(xx, yy) == w.is_blocked(xx, yy));
            let post = moved_by(w1, p, dx, dy);
            assert(player_action_step(w) == post);
            let k = w.ix(p).symbol.unwrap() as int;
            assert(post.entities == w.entities);
            assert(post.ix(p) == w.ix(p));
            assert(post.char_of(p) == w1.characters[ci]);
            assert(post.sym_of(p) == post.symbols[k]);
        },
        None => {},
    }
}

/// The world after a frame of the player-action system: during a turn the
/// living player moves or attacks in the direction asked; a look at a visible
/// cell is remembered; a click on a visible cell steps towards it and makes
/// the turn a skipped one for the other systems.
pub open spec fn player_action_step(w: WorldView) -> WorldView {
    if w.player.state != PlayerState::MakingTurn || !w.player_alive() {
        w
    } else {
        match w.player.action {
            PlayerAction::LookAt(x, y) => if spec_cell_in_fov(w, x as int, y as int) {
                WorldView { player: PlayerView { looking_at: Some((x, y)), ..w.player }, ..w }
            } else {
                w
            },
            PlayerAction::ClickAt(x, y) => if spec_cell_in_fov(w, x as int, y as int) {
                let (dx, dy) = click_delta(w, x as int, y as int);
                player_stepped(
                    WorldView { player: PlayerView { action: PlayerAction::SkipTurn, ..w.player }, ..w },
                    dx,
                    dy,
                )
            } else {
                w
            },
            a => match direction(a) {
                Some((dx, dy)) => player_stepped(w, dx, dy),
                None => w,
            },
        }
    }
}

/// The step the player takes this frame, if any: one in the direction asked,
/// or the one a click on a cell in view asks for.
pub open spec fn step_of(w: WorldView) -> Option<(int, int)> {
    match w.player.action {
        PlayerAction::LookAt(_, _) => None,
        PlayerAction::ClickAt(x, y) => if spec_cell_in_fov(w, x as int, y as int) {
            Some(click_delta(w, x as int, y as int))
        } else {
            None
        },
        a => direction(a),
    }
}

/// The player's fighter once it faces the way of the step `(dx, dy)`.
pub open spec fn faced_world(w: WorldView, dx: int, dy: int) -> WorldView {
    let ci = w.ix(w.player.id).character.unwrap() as int;
    WorldView { characters: w.characters.update(ci, faced(w.characters[ci], dx, dy)), ..w }
}

/// What a step by `(dx, dy)` needs: the destination, computed in `i32`, fits
/// it; an attack on the character standing there keeps its numbers within
/// `i32` and has an id for its message; a move has the map to move on, and
/// the destination's index `y * MAP_WIDTH + x` names a cell of it.
pub open spec fn step_fits(w: WorldView, dx: int, dy: int) -> bool {
    let p = w.player.id;
    let s = w.sym_of(p);
    let w1 = faced_world(w, dx, dy);
    &&& i32::MIN <= s.x + dx <= i32::MAX
    &&& i32::MIN <= s.y + dy <= i32::MAX
    &&& match first(w1.entities, target_pred(w1, s.x + dx, s.y + dy)) {
        Some(t) => w.id_count < u32::MAX && attack_fits(w1, p, t),
        None => w.map_ready() && on_grid(s.x + dx, s.y + dy),
    }
}

/// Whether a step fits does not depend on the action asked for.
pub proof fn lemma_step_fits_action(w: WorldView, w2: WorldView, dx: int, dy: int)
    requires
        w.wf(),
        w.is_character(w.player.id),
        w2 == (WorldView { player: PlayerView { action: w2.player.action, ..w.player }, ..w }),
        step_fits(w, dx, dy),
    ensures
        step_fits(w2, dx, dy),
{
    let w1 = faced_world(w, dx, dy);
    let v1 = faced_world(w2, dx, dy);
    let s = w.sym_of(w.player.id);
    w.lemma_wf_indexes(w.player.id);
    assert(target_pred(v1, s.x + dx, s.y + dy) =~= target_pred(w1, s.x + dx, s.y + dy));
    assert(w1.wf()) by {
        assert forall|i: int| 0 <= i < w1.entities.len() implies w1.indexes_wf(#[trigger] w1.entities[i].1) by {
            assert(w.indexes_wf(w.entities[i].1));
        }
    }
    w1.lemma_stat_frame(v1);
}

/// Facing another way changes no attack.
pub proof fn lemma_faced_attack(w: WorldView, dx: int, dy: int, t: u32)
    requires
        w.wf(),
        w.is_character(w.player.id),
        w.is_fighter(t),
    ensures
        attack_fits(faced_world(w, dx, dy), w.player.id, t) == attack_fits(w, w.player.id, t),
        target_pred(faced_world(w, dx, dy), w.sym_of(w.player.id).x + dx, w.sym_of(w.player.id).y + dy)
            == target_pred(w, w.sym_of(w.player.id).x + dx, w.sym_of(w.player.id).y + dy),
{
    let w1 = faced_world(w, dx, dy);
    w.lemma_wf_indexes(w.player.id);
    assert forall|k: int| 0 <= k < w.characters.len() implies {
        let a = #[trigger] w1.characters[k];
        let b = w.characters[k];
        &&& a.base_max_hp == b.base_max_hp
        &&& a.base_defense == b.base_defense
        &&& a.base_power == b.base_power
        &&& a.hp == b.hp
        &&& a.xp == b.xp
    } by {}
    w.lemma_stat_frame(w1);
    let s = w.sym_of(w.player.id);
    assert(target_pred(w1, s.x + dx, s.y + dy) =~= target_pred(w, s.x + dx, s.y + dy));
}

/// Whether a step by `(dx, dy)` fits.
fn check_step(world: &World, dx: i32, dy: i32) -> (r: bool)
    requires
        world@.wf(),
        world@.is_character(world@.player.id),
    ensures
        r == step_fits(world@, dx as int, dy as int),
{
    let pid = world.player.id;
    let s = world.player_sym();
    let x = s.x as i64 + dx as i64;
    let y = s.y as i64 + dy as i64;
    if x < i32::MIN as i64 || x > i32::MAX as i64 || y < i32::MIN as i64 || y > i32::MAX as i64 {
        return false;
    }
    let target = find_target(world, x as i32, y as i32);
    proof {
        world@.lemma_wf_indexes(pid);
        let w1 = faced_world(world@, dx as int, dy as int);
        assert(target_pred(w1, x as int, y as int) =~= target_pred(world@, x as int, y as int));
        lemma_first(world@.entities, target_pred(world@, x as int, y as int), target);
        lemma_first(w1.entities, target_pred(w1, x as int, y as int), target);
    }
    match target {
        Some(t) => {
            proof {
                let p = choose|p: int| 0 <= p < world@.entities.len() && #[trigger] world@.entities[p].0 == t
                    && target_pred(world@, x as int, y as int)(world@.entities[p]) && forall|q: int| 0 <= q < p ==> !target_pred(world@, x as int, y as int)(#[trigger] world@.entities[q]);
                world@.lemma_indexes_at(p);
                lemma_faced_attack(world@, dx as int, dy as int, t);
            }
            world.id_count < u32::MAX && check_attack_fits(world, pid, t)
        },
        None => world.map.len() == (cfg::MAP_WIDTH * cfg::MAP_HEIGHT) as usize && check_on_grid(x as i32, y as i32),
    }
}

/// What a frame of the player-action system needs, as the computations it
/// makes demand: looks and clicks name cells of the map vector, a click's
/// distance to the player fits an `i32`, and the step taken, if any, fits.
pub open spec fn player_action_ready(w: WorldView) -> bool {
    (w.player.state == PlayerState::MakingTurn && w.player_alive()) ==> {
        &&& (w.player.action matches PlayerAction::LookAt(x, y) ==> cell_index_ok(w, x as int, y as int))
        &&& (w.player.action matches PlayerAction::ClickAt(x, y) ==> cell_index_ok(w, x as int, y as int) && (
        spec_cell_in_fov(w, x as int, y as int) ==> click_fits(w, x as int, y as int)))
        &&& (step_of(w) matches Some((dx, dy)) ==> step_fits(w, dx, dy))
    }
}

fn find_target(world: &World, x: i32, y: i32) -> (r: Option<u32>)
    requires
        world@.wf(),
    ensures
        is_first(world@.entities, target_pred(world@, x as int, y as int), r),
{
    let ghost pred = target_pred(world@, x as int, y as int);
    let mut i: usize = 0;
    while i < world.entity_indexes.len()
        invariant
            world@.wf(),
            pred == target_pred(world@, x as int, y as int),
            i <= world@.entities.len(),
            forall|q: int| 0 <= q < i ==> !pred(#[trigger] world@.entities[q]),
        decreases world@.entities.len() - i,
    {
        let (id, ix) = world.entity_indexes[i];
        proof {
            assert(world@.indexes_wf(world@.entities[i as int].1));
        }
        match (ix.symbol, ix.map_object, ix.character, ix.ai) {
            (Some(s), Some(_), Some(_), Some(_)) => {
                if world.symbols[s].x == x && world.symbols[s].y == y && id != world.player.id {
                    proof {
                        assert(pred(world@.entities[i as int]));
                    }
                    return Some(id);
                }
            },
            _ => {},
        }
        i = i + 1;
    }
    None
}

/// The player steps by `(dx, dy)`.
fn step_player(world: &mut World, dx: i32, dy: i32)
    requires
        old(world)@.wf(),
        old(world)@.is_character(old(world)@.player.id),
        step_fits(old(world)@, dx as int, dy as int),
    ensures
        final(world)@.wf(),
        final(world)@ == player_stepped(old(world)@, dx as int, dy as int),
{
    let ghost pre = world@;
    let pid = world.player.id;
    let ix = world.get_indexes(pid).unwrap();
    proof {
        pre.lemma_wf_indexes(pid);
    }
    // the coordinates the player is moving to/attacking
    let x = world.symbols[ix.symbol.unwrap()].x + dx;
    let y = world.symbols[ix.symbol.unwrap()].y + dy;
    let ci = ix.character.unwrap();
    let mut c = world.characters[ci];
    if (dy > 0) || ((dy == 0) && (dx < 0)) {
        c.looking_right = false;
    } else if (dy < 0) || ((dy == 0) && (dx > 0)) {
        c.looking_right = true;
    }
    world.characters.set(ci, c);
    let ghost w1 = world@;
    proof {
        pre.lemma_same_entities(w1);
        assert(w1 == faced_world(pre, dx as int, dy as int));
    }
    // try to find an attackable object there
    let target_id = find_target(world, x, y);
    proof {
        lemma_first(w1.entities, target_pred(w1, x as int, y as int), target_id);
    }
    // attack if target found, move otherwise
    match target_id {
        Some(target_id) => {
            proof {
                let p = choose|p: int| 0 <= p < w1.entities.len() && #[trigger] w1.entities[p].0 == target_id
                    && target_pred(w1, x as int, y as int)(w1.entities[p]) && forall|q: int| 0 <= q < p ==> !target_pred(w1, x as int, y as int)(#[trigger] w1.entities[q]);
                w1.lemma_indexes_at(p);
            }
            attack_by(pid, target_id, world);
        },
        None => {
            move_by(pid, dx, dy, world);
        },
    }
}

pub fn update(world: &mut World)
    requires
        old(world)@.wf(),
        player_action_ready(old(world)@),
    ensures
        final(world)@.wf(),
        final(world)@ == player_action_step(old(world)@),
{
    let ghost pre = world@;
    if (world.player.state != PlayerState::MakingTurn) || !world.player_is_alive() {
        return;
    }
    let (dx, dy): (i32, i32) = match world.player.action {
        PlayerAction::GoToUp => (0, -1),
        PlayerAction::GoToDown => (0, 1),
        PlayerAction::GoToLeft => (-1, 0),
        PlayerAction::GoToRight => (1, 0),
        PlayerAction::GoToUpLeft => (-1, -1),
        PlayerAction::GoToUpRight => (1, -1),
        PlayerAction::GoToDownLeft => (-1, 1),
        PlayerAction::GoToDownRight => (1, 1),
        PlayerAction::LookAt(x, y) => {
            if cell_in_fov(world, x, y) {
                world.player.looking_at = Some((x, y));
                proof {
                    assert(world@.player.look_at == pre.player.look_at);
                }
            }
            return;
        },
        PlayerAction::ClickAt(x, y) => {
            if cell_in_fov(world, x, y) {
                let delta = delta_by_click(world, x, y);
                world.player.action = PlayerAction::SkipTurn;
                proof {
                    assert(world@.player.look_at == pre.player.look_at);
                    pre.lemma_same_entities(world@);
                    lemma_step_fits_action(pre, world@, delta.0 as int, delta.1 as int);
                }
                delta
            } else {
                return;
            }
        },
        _ => return,
    };
    step_player(world, dx, dy);
}

fn check_cell_index(world: &World, x: i32, y: i32) -> (r: bool)
    ensures
        r == cell_index_ok(world@, x as int, y as int),
{
    if x < cfg::MAP_WIDTH && y < cfg::MAP_HEIGHT {
        let index = (y as i128) * 68 + (x as i128);
        0 <= index && index < world.map.len() as i128
    } else {
        true
    }
}

/// Whether a frame of the player-action system can run.
pub fn is_ready(world: &World) -> (r: bool)
    requires
        world@.wf(),
    ensures
        r == player_action_ready(world@),
{
    if !(world.player.state == PlayerState::MakingTurn && world.player_is_alive()) {
        return true;
    }
    let (dx, dy): (i32, i32) = match world.player.action {
        PlayerAction::GoToUp => (0, -1),
        PlayerAction::GoToDown => (0, 1),
        PlayerAction::GoToLeft => (-1, 0),
        PlayerAction::GoToRight => (1, 0),
        PlayerAction::GoToUpLeft => (-1, -1),
        PlayerAction::GoToUpRight => (1, -1),
        PlayerAction::GoToDownLeft => (-1, 1),
        PlayerAction::GoToDownRight => (1, 1),
        PlayerAction::LookAt(x, y) => {
            return check_cell_index(world, x, y);
        },
        PlayerAction::ClickAt(x, y) => {
            if !check_cell_index(world, x, y) {
                return false;
            }
            if !cell_in_fov(world, x, y) {
                return true;
            }
            let s = world.player_sym();
            let ddx = x as i64 - s.x as i64;
            let ddy = y as i64 - s.y as i64;
            if ddx < i32::MIN as i64 || ddx > i32::MAX as i64 || ddy < i32::MIN as i64 || ddy > i32::MAX as i64 {
                return false;
            }
            delta_by_click(world, x, y)
        },
        _ => {
            return true;
        },
    };
    check_step(world, dx, dy)
}

} // verus!
