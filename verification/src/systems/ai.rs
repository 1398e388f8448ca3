//! The monsters' turn: each monster with a mind acts once after the player.
use crate::cfg;
use crate::cmtp::{Ai, AiOption, Character, PlayerAction, PlayerState};
use crate::engine::entity::Indexes;
use crate::engine::game::{self, in_map, on_grid, World, WorldView};
use crate::game::{attack_by, attacked, lemma_attack_fits, move_by, moved_by};
use crate::systems::dungeon::{border_walls, on_border};
use crate::rng;
use crate::systems::inventory::sq_dist;
use crate::systems::player_action::signum;
use vstd::prelude::*;

verus! {

/// The action ends the player's turn (a step in some direction, or waiting).
pub open spec fn spec_player_action_is_turn(a: PlayerAction) -> bool {
    match a {
        PlayerAction::GoToUp | PlayerAction::GoToDown | PlayerAction::GoToLeft | PlayerAction::GoToRight
        | PlayerAction::GoToUpLeft | PlayerAction::GoToUpRight | PlayerAction::GoToDownLeft
        | PlayerAction::GoToDownRight | PlayerAction::SkipTurn => true,
        _ => false,
    }
}

fn player_action_is_turn(action: PlayerAction) -> (r: bool)
    ensures
        r == spec_player_action_is_turn(action),
{
    match action {
        PlayerAction::GoToUp | PlayerAction::GoToDown | PlayerAction::GoToLeft | PlayerAction::GoToRight
        | PlayerAction::GoToUpLeft | PlayerAction::GoToUpRight | PlayerAction::GoToDownLeft
        | PlayerAction::GoToDownRight | PlayerAction::SkipTurn => true,
        _ => false,
    }
}

/// One coordinate of a step of length one towards `(dx, dy)`, rounded to the
/// grid: the sign of `d` when `|d|` is at least half the distance, else 0.
///
/// The distance is the square root of `dx * dx + dy * dy`; `|d| / distance`
/// rounds to 1 exactly when `4 * d * d >= dx * dx + dy * dy` (equality needs
/// `3 * d * d` to be a square, so only `d == 0` reaches it).
pub open spec fn step_part(d: int, dx: int, dy: int) -> int {
    if 4 * d * d >= dx * dx + dy * dy {
        signum(d)
    } else {
        0
    }
}

/// A step towards a target at `(dx, dy)` (not where the walker stands) is
/// one cell along the direction to it, rounded: it is not empty; each part is
/// 0 or the sign of the offset on its axis; the part along the longer axis is
/// never 0, so on an exact diagonal the step is diagonal; and, taken, the
/// step brings the walker strictly nearer (squared distances compared).
pub proof fn law_step_towards(dx: int, dy: int)
    requires
        dx != 0 || dy != 0,
    ensures
        ({
            let sx = step_part(dx, dx, dy);
            let sy = step_part(dy, dx, dy);
            &&& (sx, sy) != (0int, 0int)
            &&& sx == 0 || sx == signum(dx)
            &&& sy == 0 || sy == signum(dy)
            &&& dx * dx >= dy * dy ==> sx == signum(dx)
            &&& dy * dy >= dx * dx ==> sy == signum(dy)
            &&& (dx - sx) * (dx - sx) + (dy - sy) * (dy - sy) < dx * dx + dy * dy
        }),
{
    let sx = step_part(dx, dx, dy);
    let sy = step_part(dy, dx, dy);
    assert(dx * dx >= dy * dy ==> 4 * dx * dx >= dx * dx + dy * dy) by (nonlinear_arith);
    assert(dy * dy >= dx * dx ==> 4 * dy * dy >= dx * dx + dy * dy) by (nonlinear_arith);
    assert(dx * dx >= dy * dy || dy * dy >= dx * dx) by (nonlinear_arith);
    assert(dx * dx > 0 <==> dx != 0) by (nonlinear_arith);
    assert(dy * dy > 0 <==> dy != 0) by (nonlinear_arith);
    assert((dx - sx) * (dx - sx) <= dx * dx && (sx != 0 ==> (dx - sx) * (dx - sx) < dx * dx)) by (nonlinear_arith)
        requires
            sx == 0 || (dx > 0 && sx == 1) || (dx < 0 && sx == -1),
    ;
    assert((dy - sy) * (dy - sy) <= dy * dy && (sy != 0 ==> (dy - sy) * (dy - sy) < dy * dy)) by (nonlinear_arith)
        requires
            sy == 0 || (dy > 0 && sy == 1) || (dy < 0 && sy == -1),
    ;
}

/// A basic monster in view, two or more cells from the player, walks
/// towards it: it stays where it is or moves one cell, and a move takes it
/// strictly nearer to the player; on an exact diagonal it takes the diagonal
/// step whenever that cell is free.
pub proof fn law_monster_approaches(w: WorldView, id: u32)
    requires
        w.wf(),
        w.is_character(id),
        w.is_character(w.player.id),
        w.cell_at(w.sym_of(id).x as int, w.sym_of(id).y as int).in_fov,
        sq_dist(
            w.sym_of(id).x as int,
            w.sym_of(id).y as int,
            w.sym_of(w.player.id).x as int,
            w.sym_of(w.player.id).y as int,
        ) >= 4,
    ensures
        ({
            let m = w.sym_of(id);
            let p = w.sym_of(w.player.id);
            let m2 = basic_turn(w, id).sym_of(id);
            let (dx, dy) = (p.x - m.x, p.y - m.y);
            &&& (m2.x == m.x && m2.y == m.y) || ({
                &&& -1 <= m2.x - m.x <= 1
                &&& -1 <= m2.y - m.y <= 1
                &&& sq_dist(m2.x as int, m2.y as int, p.x as int, p.y as int) < sq_dist(
                    m.x as int,
                    m.y as int,
                    p.x as int,
                    p.y as int,
                )
            })
            &&& (dx == dy || dx == -dy) && !w.is_blocked(m.x + signum(dx), m.y + signum(dy)) ==> m2.x == m.x
                + signum(dx) && m2.y == m.y + signum(dy)
        }),
{
    let m = w.sym_of(id);
    let p = w.sym_of(w.player.id);
    let (dx, dy) = (p.x - m.x, p.y - m.y);
    w.lemma_wf_indexes(id);
    let ci = w.ix(id).character.unwrap() as int;
    let w1 = WorldView {
        characters: w.characters.update(ci, Character { looking_right: faces_right(m.x as int, m.y as int, p.x as int, p.y as int), ..w.characters[ci] }),
        ..w
    };
    assert(w1.entities == w.entities && w1.symbols == w.symbols && w1.map == w.map && w1.map_objects == w.map_objects);
    assert(w1.sym_of(id) == m);
    assert(w1.sym_of(w.player.id) == p);
    assert(dx != 0 || dy != 0);
    law_step_towards(dx as int, dy as int);
    let sx = step_part(dx as int, dx as int, dy as int);
    let sy = step_part(dy as int, dx as int, dy as int);
    assert(forall|x: int, y: int| w1.is_blocked(x, y) == w.is_blocked(x, y));
    assert((dx == dy || dx == -dy) ==> sx == signum(dx as int) && sy == signum(dy as int)) by (nonlinear_arith)
        requires
            (dx as int) * (dx as int) >= (dy as int) * (dy as int) ==> sx == signum(dx as int),
            (dy as int) * (dy as int) >= (dx as int) * (dx as int) ==> sy == signum(dy as int),
    ;
    let (tx, ty) = crate::game::move_target(w1, id, sx, sy);
    let (mx, my, px, py) = (m.x as int, m.y as int, p.x as int, p.y as int);
    assert((dx - sx) * (dx - sx) + (dy - sy) * (dy - sy) == sq_dist(mx + sx, my + sy, px, py)) by (nonlinear_arith)
        requires
            dx == px - mx,
            dy == py - my,
    ;
    let post = moved_by(w1, id, sx, sy);
    assert(moved_towards(w1, id, px, py) == post);
    assert(basic_turn(w, id) == post);
    let k = w.ix(id).symbol.unwrap() as int;
    assert(post.entities == w.entities);
    assert(post.ix(id) == w.ix(id));
    assert(post.sym_of(id) == post.symbols[k]);
    assert(post.symbols[k] == crate::cmtp::Symbol { x: tx as i32, y: ty as i32, ..w1.symbols[k] });
}

/// The world after `id` takes one step towards `(tx, ty)`.
pub open spec fn moved_towards(w: WorldView, id: u32, tx: int, ty: int) -> WorldView {
    let s = w.sym_of(id);
    let dx = tx - s.x;
    let dy = ty - s.y;
    moved_by(w, id, step_part(dx, dx, dy), step_part(dy, dx, dy))
}

/// `(x, y)` lies inside the rock around the edge of the map.
pub open spec fn inside_border(x: int, y: int) -> bool {
    &&& 1 <= x <= cfg::MAP_WIDTH - 2
    &&& 1 <= y <= cfg::MAP_HEIGHT - 2
}

/// The map is complete with rock all around its edge, and every symbol
/// stands inside that rock: a step of one cell from any of them stays on the
/// map, and a step onto the edge is blocked.
pub open spec fn walled_in(w: WorldView) -> bool {
    &&& w.map_ready()
    &&& border_walls(w.map)
    &&& forall|k: int| 0 <= k < w.symbols.len() ==> inside_border(#[trigger] w.symbols[k].x as int, w.symbols[k].y as int)
}

/// Moves `id` one step towards the target, along the rounded direction to it.
fn move_towards(id: u32, target_x: i32, target_y: i32, world: &mut World)
    requires
        old(world)@.wf(),
        old(world)@.map_ready(),
        old(world)@.has_symbol(id),
        inside_border(old(world)@.sym_of(id).x as int, old(world)@.sym_of(id).y as int),
    ensures
        final(world)@.wf(),
        final(world)@ == moved_towards(old(world)@, id, target_x as int, target_y as int),
{
    let ix = world.get_indexes(id).unwrap();
    proof {
        world@.lemma_wf_indexes(id);
        world@.lemma_symbol_on_grid(ix.symbol.unwrap() as int);
    }
    let s = world.symbols[ix.symbol.unwrap()];
    // vector from this object to the target
    let dx = target_x as i128 - s.x as i128;
    let dy = target_y as i128 - s.y as i128;
    assert(0 <= dx * dx <= 0x1_0000_0000_0000_0000 && 0 <= dy * dy <= 0x1_0000_0000_0000_0000) by (nonlinear_arith)
        requires
            -0x1_0000_0000 <= dx <= 0x1_0000_0000,
            -0x1_0000_0000 <= dy <= 0x1_0000_0000,
    ;
    let d2 = dx * dx + dy * dy;
    // normalized to length 1 and rounded to the grid
    let sx: i32 = if 4 * (dx * dx) >= d2 {
        if dx > 0 {
            1
        } else if dx < 0 {
            -1
        } else {
            0
        }
    } else {
        0
    };
    let sy: i32 = if 4 * (dy * dy) >= d2 {
        if dy > 0 {
            1
        } else if dy < 0 {
            -1
        } else {
            0
        }
    } else {
        0
    };
    proof {
        assert(4 * (dx * dx) == 4 * dx * dx) by (nonlinear_arith);
        assert(4 * (dy * dy) == 4 * dy * dy) by (nonlinear_arith);
        crate::engine::game::lemma_in_map_on_grid(s.x + sx, s.y + sy);
    }
    move_by(id, sx, sy, world);
}

/// A monster at `(mx, my)` faces right unless the player is to its left (or
/// straight below it).
pub open spec fn faces_right(mx: int, my: int, px: int, py: int) -> bool {
    !(mx > px || (mx == px && my < py))
}

/// The monsters can act: they stand inside the rock around the map, and the
/// numbers of the world stay small enough for their attacks: statistics are
/// bounded, and so are hit points and experience while the player is alive
/// (once it is dead, nobody attacks any more).
pub open spec fn ai_fits(w: WorldView) -> bool {
    &&& walled_in(w)
    &&& w.stats_bounded()
    &&& w.char_of(w.player.id).hp > 0 ==> w.vitals_bounded()
}

/// The world after the basic mind of `id` acts: the monster turns towards the
/// player; if the player can see it, it walks towards the player when at a
/// distance of 2 or more, or else attacks the player if it still has hit
/// points.
pub open spec fn basic_turn(w: WorldView, id: u32) -> WorldView {
    let m = w.sym_of(id);
    let p = w.sym_of(w.player.id);
    let ci = w.ix(id).character.unwrap() as int;
    let w1 = WorldView {
        characters: w.characters.update(
            ci,
            Character { looking_right: faces_right(m.x as int, m.y as int, p.x as int, p.y as int), ..w.characters[ci] },
        ),
        ..w
    };
    if w.cell_at(m.x as int, m.y as int).in_fov {
        if sq_dist(m.x as int, m.y as int, p.x as int, p.y as int) >= 4 {
            moved_towards(w1, id, p.x as int, p.y as int)
        } else if w1.char_of(w.player.id).hp > 0 {
            attacked(w1, id, w.player.id)
        } else {
            w1
        }
    } else {
        w1
    }
}

/// What a monster's turn leaves as it was: the player, the map, the items,
/// every base statistic and every entity (at most one message is added).
pub open spec fn turn_frame(pre: WorldView, post: WorldView) -> bool {
    &&& post.wf()
    &&& pre.entities.len() <= post.entities.len() <= pre.entities.len() + 1
    &&& post.entities.subrange(0, pre.entities.len() as int) == pre.entities
    &&& post.id_count <= pre.id_count + 1
    &&& post.player == pre.player
    &&& post.map == pre.map
    &&& walled_in(pre) ==> walled_in(post)
    &&& post.items == pre.items
    &&& post.equipments == pre.equipments
    &&& post.characters.len() == pre.characters.len()
    &&& forall|k: int|
        0 <= k < pre.characters.len() ==> {
            let a = #[trigger] post.characters[k];
            let b = pre.characters[k];
            &&& a.base_max_hp == b.base_max_hp
            &&& a.base_defense == b.base_defense
            &&& a.base_power == b.base_power
        }
}

/// The world with the character at `ci` facing right or left.
pub open spec fn turned(w: WorldView, ci: int, right: bool) -> WorldView {
    WorldView { characters: w.characters.update(ci, Character { looking_right: right, ..w.characters[ci] }), ..w }
}

/// Turning a character keeps every number of the world.
pub proof fn lemma_turned(w: WorldView, ci: int, right: bool)
    requires
        w.wf(),
        0 <= ci < w.characters.len(),
    ensures
        turn_frame(w, turned(w, ci, right)),
        turned(w, ci, right).entities == w.entities,
        turned(w, ci, right).id_count == w.id_count,
        w.vitals_bounded() ==> turned(w, ci, right).vitals_bounded(),
        forall|k: int| 0 <= k < w.characters.len() ==> (#[trigger] turned(w, ci, right).characters[k]).hp == w.characters[k].hp,
{
    let w1 = turned(w, ci, right);
    assert(w1.symbols == w.symbols);
    assert forall|k: int| 0 <= k < w1.entities.len() implies w1.indexes_wf(#[trigger] w1.entities[k].1) by {
        assert(w.indexes_wf(w.entities[k].1));
    }
    assert(w1.entities.subrange(0, w.entities.len() as int) =~= w.entities);
    if w.vitals_bounded() {
        assert forall|k: int| 0 <= k < w1.characters.len() implies {
            let c = #[trigger] w1.characters[k];
            &&& -game::MAX_HP_VALUE <= c.hp <= game::MAX_HP_VALUE
            &&& -game::MAX_XP_VALUE <= c.xp <= game::MAX_XP_VALUE
        } by {
            assert(w.characters[k].hp == w1.characters[k].hp);
        }
    }
}

/// Moving keeps everything but the symbols; a step of one cell from inside
/// the rock around the map stays inside it.
pub proof fn lemma_moved_frame(w: WorldView, id: u32, dx: int, dy: int)
    requires
        w.wf(),
        w.has_symbol(id),
        on_grid(w.sym_of(id).x + dx, w.sym_of(id).y + dy),
        i32::MIN <= w.sym_of(id).x + dx <= i32::MAX,
        i32::MIN <= w.sym_of(id).y + dy <= i32::MAX,
        walled_in(w) ==> -1 <= dx <= 1 && -1 <= dy <= 1,
    ensures
        turn_frame(w, moved_by(w, id, dx, dy)),
        moved_by(w, id, dx, dy).characters == w.characters,
        moved_by(w, id, dx, dy).entities == w.entities,
{
    let post = moved_by(w, id, dx, dy);
    w.lemma_wf_indexes(id);
    let k = w.ix(id).symbol.unwrap() as int;
    w.lemma_symbol_on_grid(k);
    assert(post.entities.subrange(0, w.entities.len() as int) =~= w.entities);
    assert forall|i: int| 0 <= i < post.entities.len() implies post.indexes_wf(#[trigger] post.entities[i].1) by {
        assert(w.indexes_wf(w.entities[i].1));
    }
    assert forall|i: int| 0 <= i < post.symbols.len() implies on_grid(
        #[trigger] post.symbols[i].x as int,
        post.symbols[i].y as int,
    ) by {
        if i != k {
            assert(on_grid(w.symbols[i].x as int, w.symbols[i].y as int));
        }
    }
    if walled_in(w) {
        let s = w.symbols[k];
        let (x, y) = crate::game::move_target(w, id, dx, dy);
        assert(inside_border(s.x as int, s.y as int));
        if (x, y) != (s.x as int, s.y as int) {
            assert(!w.is_blocked(x, y));
            if on_border(x, y) {
                assert(w.map[crate::engine::game::map_index(x, y)].block);
            }
        }
        assert forall|i: int| 0 <= i < post.symbols.len() implies inside_border(
            #[trigger] post.symbols[i].x as int,
            post.symbols[i].y as int,
        ) by {
            if i != k {
                assert(inside_border(w.symbols[i].x as int, w.symbols[i].y as int));
            }
        }
    }
}

/// An attack keeps everything but the fighters' hit points, life and
/// experience, and adds one message.
pub proof fn lemma_attacked_frame(w: WorldView, a: u32, t: u32)
    requires
        w.wf(),
        w.id_count < u32::MAX,
        w.is_fighter(a),
        w.is_fighter(t),
    ensures
        turn_frame(w, attacked(w, a, t)),
{
    let post = attacked(w, a, t);
    let wl = w.with_log(crate::game::attack_report(w, a, t), cfg::color_lightest_grey());
    w.lemma_with_log(crate::game::attack_report(w, a, t), cfg::color_lightest_grey());
    w.lemma_wf_indexes(a);
    w.lemma_wf_indexes(t);
    assert(post.symbols == w.symbols);
    assert(post.entities.subrange(0, w.entities.len() as int) =~= w.entities);
    assert forall|i: int| 0 <= i < post.entities.len() implies post.indexes_wf(#[trigger] post.entities[i].1) by {
        assert(wl.indexes_wf(wl.entities[i].1));
    }
    assert forall|k: int| 0 <= k < w.characters.len() implies {
        let x = #[trigger] post.characters[k];
        let y = w.characters[k];
        &&& x.base_max_hp == y.base_max_hp
        &&& x.base_defense == y.base_defense
        &&& x.base_power == y.base_power
    } by {
    }
}

/// When the target of an attack survives it, hit points and experience stay
/// bounded.
pub proof fn lemma_attack_vitals(w: WorldView, a: u32, t: u32)
    requires
        w.wf(),
        w.vitals_bounded(),
        w.stats_bounded(),
        w.is_fighter(a),
        w.is_fighter(t),
    ensures
        attacked(w, a, t).characters[w.ix(t).character.unwrap() as int].hp > 0 ==> attacked(w, a, t).vitals_bounded(),
{
    let post = attacked(w, a, t);
    lemma_attack_fits(w, a, t);
    w.lemma_wf_indexes(a);
    w.lemma_wf_indexes(t);
    let ti = w.ix(t).character.unwrap() as int;
    if post.characters[ti].hp > 0 {
        assert forall|k: int| 0 <= k < post.characters.len() implies {
            let c = #[trigger] post.characters[k];
            &&& -game::MAX_HP_VALUE <= c.hp <= game::MAX_HP_VALUE
            &&& -game::MAX_XP_VALUE <= c.xp <= game::MAX_XP_VALUE
        } by {
            assert(-game::MAX_HP_VALUE <= w.characters[k].hp <= game::MAX_HP_VALUE);
            assert(-game::MAX_HP_VALUE <= w.characters[ti].hp <= game::MAX_HP_VALUE);
        }
    }
}

/// A step that adds nothing followed by a turn is a turn.
pub proof fn lemma_frame_compose(a: WorldView, b: WorldView, c: WorldView)
    requires
        turn_frame(a, b),
        b.entities == a.entities,
        b.id_count == a.id_count,
        turn_frame(b, c),
    ensures
        turn_frame(a, c),
{
    assert forall|k: int| 0 <= k < a.characters.len() implies {
        let x = #[trigger] c.characters[k];
        let y = a.characters[k];
        &&& x.base_max_hp == y.base_max_hp
        &&& x.base_defense == y.base_defense
        &&& x.base_power == y.base_power
    } by {
        assert(b.characters[k].base_power == a.characters[k].base_power);
    }
}

/// A turn keeps the statistics bounded (as long as the entities stay few).
pub proof fn lemma_frame_stats(pre: WorldView, post: WorldView)
    requires
        turn_frame(pre, post),
        pre.stats_bounded(),
        post.entities.len() <= 4 * game::MAX_ENTITIES,
    ensures
        post.stats_bounded(),
{
    assert forall|k: int| 0 <= k < post.characters.len() implies {
        let c = #[trigger] post.characters[k];
        &&& -game::MAX_BASE_STAT <= c.base_max_hp <= game::MAX_BASE_STAT
        &&& -game::MAX_BASE_STAT <= c.base_defense <= game::MAX_BASE_STAT
        &&& -game::MAX_BASE_STAT <= c.base_power <= game::MAX_BASE_STAT
    } by {
        assert(pre.characters[k].base_power == post.characters[k].base_power);
    }
}

/// The basic mind of a monster.
#[verifier::rlimit(60)]
#[verifier::spinoff_prover]
fn ai_basic(monster_id: u32, world: &mut World) -> (r: Ai)
    requires
        old(world)@.wf(),
        old(world)@.map_ready(),
        old(world)@.is_character(monster_id),
        old(world)@.is_character(old(world)@.player.id),
        ai_fits(old(world)@),
        old(world)@.entities.len() <= 2 * game::MAX_ENTITIES,
        old(world).id_count < u32::MAX,
    ensures
        final(world)@ == basic_turn(old(world)@, monster_id),
        r == Ai::Basic,
        turn_frame(old(world)@, final(world)@),
        ai_fits(final(world)@),
{
    let ghost pre = world@;
    let pid = world.player.id;
    let mix = world.get_indexes(monster_id).unwrap();
    let pix = world.get_indexes(pid).unwrap();
    proof {
        pre.lemma_wf_indexes(monster_id);
        pre.lemma_wf_indexes(pid);
        pre.lemma_symbol_on_grid(mix.symbol.unwrap() as int);
        pre.lemma_symbol_on_grid(pix.symbol.unwrap() as int);
    }
    let ms = world.symbols[mix.symbol.unwrap()];
    let ps = world.symbols[pix.symbol.unwrap()];
    let (monster_x, monster_y) = (ms.x, ms.y);
    let (player_x, player_y) = (ps.x, ps.y);
    let ci = mix.character.unwrap();
    let pc = pix.character.unwrap();
    let mut c = world.characters[ci];
    if (monster_x > player_x) || ((monster_x == player_x) && (monster_y < player_y)) {
        c.looking_right = false;
    } else {
        c.looking_right = true;
    }
    world.characters.set(ci, c);
    let ghost w1 = world@;
    proof {
        lemma_turned(pre, ci as int, c.looking_right);
        assert(w1 == turned(pre, ci as int, c.looking_right));
        assert(w1.characters[pc as int].hp == pre.characters[pc as int].hp);
        pre.lemma_same_entities(w1);
        assert(w1.entities.subrange(0, w1.entities.len() as int) =~= w1.entities);
    }
    if world.map[(monster_y * cfg::MAP_WIDTH + monster_x) as usize].in_fov {
        let dx = player_x as i64 - monster_x as i64;
        let dy = player_y as i64 - monster_y as i64;
        assert(0 <= dx * dx <= 0x1_0000 && 0 <= dy * dy <= 0x1_0000) by (nonlinear_arith)
            requires
                -0x100 <= dx <= 0x100,
                -0x100 <= dy <= 0x100,
        ;
        if dx * dx + dy * dy >= 4 {
            // move towards player if far away
            move_towards(monster_id, player_x, player_y, world);
            proof {
                let (ddx, ddy) = (player_x - monster_x, player_y - monster_y);
                lemma_moved_frame(w1, monster_id, step_part(ddx, ddx, ddy), step_part(ddy, ddx, ddy));
            }
        } else if world.characters[pc].hp > 0 {
            // close enough, attack! (if the player is still alive.)
            proof {
                lemma_attack_fits(w1, monster_id, pid);
                lemma_attacked_frame(w1, monster_id, pid);
                lemma_attack_vitals(w1, monster_id, pid);
            }
            attack_by(monster_id, pid, world);
        }
    }
    proof {
        let post = world@;
        lemma_frame_compose(pre, w1, post);
        lemma_frame_stats(pre, post);
        pre.lemma_has_appended(post, pid);
    }
    Ai::Basic
}

pub open spec fn unconfused_msg(name: Seq<char>) -> Seq<char> {
    "The "@ + name + " is no longer confused!"@
}

/// The world after the confused mind of `id` acts with the random step
/// `roll`, and the mind it has next: while turns are left it stumbles by
/// `roll` and has one turn less; then it gets its previous mind back.
pub open spec fn confused_turn(w: WorldView, id: u32, previous_ai: Ai, num_turns: i32, roll: (int, int)) -> (WorldView, Ai) {
    if num_turns >= 0 {
        (
            moved_by(w, id, roll.0, roll.1),
            Ai::Confused { previous_ai: Box::new(previous_ai), num_turns: (num_turns - 1) as i32 },
        )
    } else {
        (w.with_log(unconfused_msg(w.mobj_of(id).name), cfg::color_orange()), previous_ai)
    }
}

/// A random step: each coordinate is -1, 0 or 1.
pub open spec fn roll_ok(roll: (int, int)) -> bool {
    &&& -1 <= roll.0 <= 1
    &&& -1 <= roll.1 <= 1
}

/// The confused mind of a monster, with the random step it stumbles by.
pub fn confused_step(monster_id: u32, world: &mut World, previous_ai: Box<Ai>, num_turns: i32, dx: i32, dy: i32) -> (r: Ai)
    requires
        old(world)@.wf(),
        old(world)@.map_ready(),
        old(world)@.is_character(monster_id),
        old(world).id_count < u32::MAX,
        num_turns >= 0 ==> {
            let s = old(world)@.sym_of(monster_id);
            &&& i32::MIN <= s.x + dx <= i32::MAX
            &&& i32::MIN <= s.y + dy <= i32::MAX
            &&& on_grid(s.x + dx, s.y + dy)
        },
        walled_in(old(world)@) ==> -1 <= dx <= 1 && -1 <= dy <= 1,
    ensures
        (final(world)@, r) == confused_turn(old(world)@, monster_id, *previous_ai, num_turns, (dx as int, dy as int)),
        turn_frame(old(world)@, final(world)@),
{
    let ghost pre = world@;
    if num_turns >= 0 {
        // still confused: stumble, and one turn less to go
        move_by(monster_id, dx, dy, world);
        proof {
            lemma_moved_frame(pre, monster_id, dx as int, dy as int);
        }
        Ai::Confused { previous_ai: previous_ai, num_turns: num_turns - 1 }
    } else {
        // restore the previous mind
        let ix = world.get_indexes(monster_id).unwrap();
        proof {
            pre.lemma_wf_indexes(monster_id);
        }
        let mut msg = String::from_str("The ");
        msg.append(world.map_objects[ix.map_object.unwrap()].name.as_str());
        msg.append(" is no longer confused!");
        world.add_log(cfg::color_orange(), msg);
        proof {
            assert(world@.entities.subrange(0, pre.entities.len() as int) =~= pre.entities);
            assert(world@.symbols == pre.symbols);
        }
        *previous_ai
    }
}

/// The confused mind of a monster: while it is confused it stumbles in a
/// random direction; then it gets its previous mind back. Whatever step is
/// drawn, each of its coordinates is -1, 0 or 1.
fn ai_confused(monster_id: u32, world: &mut World, previous_ai: Box<Ai>, num_turns: i32) -> (r: Ai)
    requires
        old(world)@.wf(),
        walled_in(old(world)@),
        old(world)@.is_character(monster_id),
        old(world).id_count < u32::MAX,
    ensures
        exists|roll: (int, int)|
            roll_ok(roll) && (final(world)@, r) == #[trigger] confused_turn(
                old(world)@,
                monster_id,
                *previous_ai,
                num_turns,
                roll,
            ),
        turn_frame(old(world)@, final(world)@),
{
    let ghost pre = world@;
    let ghost prev = *previous_ai;
    let (dx, dy) = if num_turns >= 0 {
        (rng::gen_range(-1, 2), rng::gen_range(-1, 2))
    } else {
        (0, 0)
    };
    proof {
        pre.lemma_wf_indexes(monster_id);
        let s = pre.sym_of(monster_id);
        assert(inside_border(s.x as int, s.y as int));
        crate::engine::game::lemma_in_map_on_grid(s.x + dx, s.y + dy);
    }
    let r = confused_step(monster_id, world, previous_ai, num_turns, dx, dy);
    proof {
        assert(roll_ok((dx as int, dy as int)));
        assert((world@, r) == confused_turn(pre, monster_id, prev, num_turns, (dx as int, dy as int)));
    }
    r
}

/// The world after the monster `id` takes its turn with the random step
/// `roll` (used only by a confused mind): its mind is taken out, acts, and the
/// mind it has next is put back.
pub open spec fn ai_turn(w: WorldView, id: u32, roll: (int, int)) -> WorldView {
    let k = w.ix(id).ai.unwrap() as int;
    match w.ais[k].option {
        Some(a) => {
            let w0 = WorldView { ais: w.ais.update(k, AiOption { option: None }), ..w };
            let (w1, next) = match a {
                Ai::Basic => (basic_turn(w0, id), Ai::Basic),
                Ai::Confused { previous_ai, num_turns } => confused_turn(w0, id, *previous_ai, num_turns, roll),
            };
            WorldView { ais: w1.ais.update(k, AiOption { option: Some(next) }), ..w1 }
        },
        None => w,
    }
}

/// The monster `id` takes its turn.
#[verifier::rlimit(60)]
#[verifier::spinoff_prover]
fn ai_take_turn(id: u32, world: &mut World)
    requires
        old(world)@.wf(),
        old(world)@.map_ready(),
        old(world)@.is_character(id),
        old(world)@.is_character(old(world)@.player.id),
        ai_fits(old(world)@),
        old(world)@.entities.len() <= 2 * game::MAX_ENTITIES,
        old(world).id_count < u32::MAX,
    ensures
        exists|roll: (int, int)| roll_ok(roll) && final(world)@ == #[trigger] ai_turn(old(world)@, id, roll),
        turn_frame(old(world)@, final(world)@),
        ai_fits(final(world)@),
{
    let ghost pre = world@;
    let ix = world.get_indexes(id).unwrap();
    proof {
        pre.lemma_wf_indexes(id);
    }
    let k = ix.ai.unwrap();
    let taken = world.ais[k].option.take();
    match taken {
        Some(ai) => {
            let ghost w0 = world@;
            proof {
                assert(w0.ais =~= pre.ais.update(k as int, AiOption { option: None }));
                pre.lemma_same_entities(w0);
                assert forall|j: int| 0 <= j < w0.entities.len() implies w0.indexes_wf(#[trigger] w0.entities[j].1) by {
                    assert(pre.indexes_wf(pre.entities[j].1));
                }
                assert(w0.char_of(w0.player.id) == pre.char_of(pre.player.id));
            }
            let ghost ai_g = ai;
            let next = match ai {
                Ai::Basic => ai_basic(id, world),
                Ai::Confused { previous_ai, num_turns } => ai_confused(id, world, previous_ai, num_turns),
            };
            let ghost w1 = world@;
            world.ais.set(k, AiOption { option: Some(next) });
            proof {
                let post = world@;
                assert forall|j: int| 0 <= j < post.entities.len() implies post.indexes_wf(#[trigger] post.entities[j].1) by {
                    assert(w1.indexes_wf(w1.entities[j].1));
                }
                w1.lemma_same_entities(post);
                assert(post.entities.subrange(0, pre.entities.len() as int) =~= pre.entities) by {
                    assert(w1.entities.subrange(0, w0.entities.len() as int) == w0.entities);
                }
                assert(post.char_of(post.player.id) == w1.char_of(w1.player.id));
                assert forall|kk: int| 0 <= kk < pre.characters.len() implies {
                    let a = #[trigger] post.characters[kk];
                    let b = pre.characters[kk];
                    &&& a.base_max_hp == b.base_max_hp
                    &&& a.base_defense == b.base_defense
                    &&& a.base_power == b.base_power
                } by {
                    assert(w0.characters[kk] == pre.characters[kk]);
                    assert(w1.characters[kk].base_power == w0.characters[kk].base_power);
                }
                match ai_g {
                    Ai::Basic => {
                        assert(post == ai_turn(pre, id, (0, 0)));
                    },
                    Ai::Confused { previous_ai, num_turns } => {
                        let roll = choose|roll: (int, int)| roll_ok(roll) && (w1, next) == #[trigger] confused_turn(
                            w0, id, *previous_ai, num_turns, roll);
                        assert(post == ai_turn(pre, id, roll));
                    },
                }
            }
        },
        None => {
            proof {
                assert(world@.ais =~= pre.ais);
                assert(world@ == pre);
                assert(world@ == ai_turn(pre, id, (0, 0)));
                assert(world@.entities.subrange(0, pre.entities.len() as int) =~= pre.entities);
            }
        },
    }
}

/// The entity `e` is a character whose mind is in place.
pub open spec fn has_mind(w: WorldView, e: (u32, Indexes)) -> bool {
    &&& e.1.symbol is Some
    &&& e.1.map_object is Some
    &&& e.1.character is Some
    &&& e.1.ai is Some
    &&& w.ais[e.1.ai.unwrap() as int].option is Some
}

/// The ids of the characters with a mind among the first `n` entities.
pub open spec fn ai_ids(w: WorldView, n: int) -> Seq<u32>
    decreases n,
{
    if n <= 0 {
        Seq::empty()
    } else {
        let s = ai_ids(w, n - 1);
        if has_mind(w, w.entities[n - 1]) {
            s.push(w.entities[n - 1].0)
        } else {
            s
        }
    }
}

pub proof fn lemma_ai_ids(w: WorldView, n: int)
    requires
        w.wf(),
        0 <= n <= w.entities.len(),
    ensures
        ai_ids(w, n).len() <= n,
        forall|j: int| 0 <= j < ai_ids(w, n).len() ==> w.is_character(#[trigger] ai_ids(w, n)[j]),
    decreases n,
{
    if n > 0 {
        lemma_ai_ids(w, n - 1);
        w.lemma_indexes_at(n - 1);
    }
}

/// The world after the monsters `ids[..k]` take their turns, with the random
/// steps `rolls`.
pub open spec fn ai_turns(w: WorldView, ids: Seq<u32>, rolls: Seq<(int, int)>, k: int) -> WorldView
    decreases k,
{
    if k <= 0 {
        w
    } else {
        ai_turn(ai_turns(w, ids, rolls, k - 1), ids[k - 1], rolls[k - 1])
    }
}

/// The monsters act: during a turn of the living player that ended its turn.
pub open spec fn ai_acts(w: WorldView) -> bool {
    &&& w.player.state == PlayerState::MakingTurn
    &&& w.player_alive()
    &&& spec_player_action_is_turn(w.player.action)
}

/// The world after a frame of the AI system, with the random steps `rolls`:
/// once the player has ended its turn, every character with a mind acts, in
/// order of id.
pub open spec fn ai_step(w: WorldView, rolls: Seq<(int, int)>) -> WorldView {
    if ai_acts(w) {
        let ids = ai_ids(w, w.entities.len() as int);
        ai_turns(w, ids, rolls, ids.len() as int)
    } else {
        w
    }
}

/// What a frame of the AI system needs when the monsters act: bounded numbers,
/// and a complete map walled all around with every symbol inside, so that
/// whatever steps are drawn, every move names a cell of the map.
pub open spec fn ai_ready(w: WorldView) -> bool {
    ai_acts(w) ==> w.fit_for_turn() && walled_in(w)
}

/// The ids of the characters with a mind.
fn find_ai_ids(world: &World) -> (r: Vec<u32>)
    requires
        world@.wf(),
    ensures
        r@ == ai_ids(world@, world@.entities.len() as int),
{
    let mut r: Vec<u32> = Vec::new();
    let mut i: usize = 0;
    while i < world.entity_indexes.len()
        invariant
            world@.wf(),
            i <= world@.entities.len(),
            r@ == ai_ids(world@, i as int),
        decreases world@.entities.len() - i,
    {
        let (id, ix) = world.entity_indexes[i];
        proof {
            assert(world@.indexes_wf(world@.entities[i as int].1));
        }
        match (ix.symbol, ix.map_object, ix.character, ix.ai) {
            (Some(_), Some(_), Some(_), Some(k)) => {
                if world.ais[k].option.is_some() {
                    r.push(id);
                }
            },
            _ => {},
        }
        i = i + 1;
    }
    r
}

/// Lets the monsters take their turn. Whatever steps the confused ones draw,
/// each coordinate of each step is -1, 0 or 1.
#[verifier::rlimit(60)]
#[verifier::spinoff_prover]
pub fn update(world: &mut World)
    requires
        old(world)@.wf(),
        ai_ready(old(world)@),
    ensures
        final(world)@.wf(),
        exists|rolls: Seq<(int, int)>|
            (forall|j: int| 0 <= j < rolls.len() ==> roll_ok(#[trigger] rolls[j])) && final(world)@ == #[trigger] ai_step(
                old(world)@,
                rolls,
            ),
{
    let ghost pre = world@;
    if world.player.state != PlayerState::MakingTurn {
        proof {
            assert(world@ == ai_step(pre, Seq::empty()));
        }
        return;
    }
    if !(world.player_is_alive() && player_action_is_turn(world.player.action)) {
        proof {
            assert(world@ == ai_step(pre, Seq::empty()));
        }
        return;
    }
    let monsters = find_ai_ids(world);
    let ghost ids = monsters@;
    proof {
        lemma_ai_ids(pre, pre.entities.len() as int);
        pre.lemma_wf_indexes(pre.player.id);
        assert(pre.stats_bounded());
    }
    let ghost mut rolls: Seq<(int, int)> = Seq::empty();
    let mut i: usize = 0;
    while i < monsters.len()
        invariant
            pre.wf(),
            pre.fit_for_turn(),
            pre.map_ready(),
            pre.is_character(pre.player.id),
            ai_acts(pre),
            ids == monsters@,
            ids == ai_ids(pre, pre.entities.len() as int),
            ids.len() <= pre.entities.len(),
            forall|j: int| 0 <= j < ids.len() ==> pre.is_character(#[trigger] ids[j]),
            i <= ids.len(),
            rolls.len() == i,
            forall|j: int| 0 <= j < rolls.len() ==> roll_ok(#[trigger] rolls[j]),
            world@ == ai_turns(pre, ids, rolls, i as int),
            world@.wf(),
            pre.entities.len() <= world@.entities.len() <= pre.entities.len() + i,
            world@.entities.subrange(0, pre.entities.len() as int) == pre.entities,
            world@.id_count <= pre.id_count + i,
            world@.player == pre.player,
            world@.map == pre.map,
            ai_fits(world@),
        decreases ids.len() - i,
    {
        let id = monsters[i];
        let ghost before = world@;
        proof {
            pre.lemma_wf_indexes(id);
            pre.lemma_has_appended(before, id);
            pre.lemma_has_appended(before, pre.player.id);
        }
        ai_take_turn(id, world);
        proof {
            let roll = choose|roll: (int, int)| roll_ok(roll) && world@ == #[trigger] ai_turn(before, id, roll);
            let old_rolls = rolls;
            rolls = rolls.push(roll);
            assert(ai_turns(pre, ids, rolls, i as int) == before) by {
                lemma_ai_turns_prefix(pre, ids, old_rolls, rolls, i as int);
            }
            assert(world@.entities.subrange(0, pre.entities.len() as int) =~= pre.entities) by {
                assert(world@.entities.subrange(0, before.entities.len() as int) == before.entities);
            }
        }
        i = i + 1;
    }
    proof {
        assert(world@ == ai_step(pre, rolls));
    }
}

/// The turns taken depend only on the steps drawn for them.
pub proof fn lemma_ai_turns_prefix(w: WorldView, ids: Seq<u32>, r1: Seq<(int, int)>, r2: Seq<(int, int)>, k: int)
    requires
        0 <= k <= r1.len(),
        k <= r2.len(),
        forall|j: int| 0 <= j < k ==> r1[j] == r2[j],
    ensures
        ai_turns(w, ids, r1, k) == ai_turns(w, ids, r2, k),
    decreases k,
{
    if k > 0 {
        lemma_ai_turns_prefix(w, ids, r1, r2, k - 1);
    }
}

/// The mind a monster has after one more turn with the mind `a`: a confused
/// mind counts its turns down, then gives the previous mind back.
pub open spec fn next_mind(a: Ai) -> Ai {
    match a {
        Ai::Basic => Ai::Basic,
        Ai::Confused { previous_ai, num_turns } => if num_turns >= 0 {
            Ai::Confused { previous_ai, num_turns: (num_turns - 1) as i32 }
        } else {
            *previous_ai
        },
    }
}

/// The mind after `k` turns.
pub open spec fn mind_after(a: Ai, k: nat) -> Ai
    decreases k,
{
    if k == 0 {
        a
    } else {
        mind_after(next_mind(a), (k - 1) as nat)
    }
}

/// A monster's turn leaves it with the next mind of the one it had.
pub proof fn law_turn_mind(w: WorldView, id: u32, roll: (int, int))
    requires
        w.ais[w.ix(id).ai.unwrap() as int].option matches Some(a),
        0 <= w.ix(id).ai.unwrap() < w.ais.len(),
    ensures
        ai_turn(w, id, roll).ais[w.ix(id).ai.unwrap() as int].option == Some(
            next_mind(w.ais[w.ix(id).ai.unwrap() as int].option.unwrap()),
        ),
{
}

/// Confusion wears off: a monster confused for `n` more turns has its
/// previous mind back after `n + 2` of its turns.
pub proof fn law_confusion_wears_off(previous: Ai, n: i32)
    requires
        n >= -1,
    ensures
        mind_after(Ai::Confused { previous_ai: Box::new(previous), num_turns: n }, (n + 2) as nat) == previous,
    decreases n + 1,
{
    let a = Ai::Confused { previous_ai: Box::new(previous), num_turns: n };
    if n >= 0 {
        law_confusion_wears_off(previous, (n - 1) as i32);
        assert(next_mind(a) == Ai::Confused { previous_ai: Box::new(previous), num_turns: (n - 1) as i32 });
    } else {
        assert(next_mind(a) == previous);
        assert(mind_after(previous, 0) == previous);
    }
}

/// The cell of the map at `(x, y)` is rock.
spec fn rock_at(w: WorldView, x: int, y: int) -> bool {
    w.map[crate::engine::game::map_index(x, y)].block
}

/// Whether the map is complete, walled all around, with every symbol inside.
fn check_walled_in(world: &World) -> (r: bool)
    ensures
        r == walled_in(world@),
{
    let ghost w = world@;
    if world.map.len() != (cfg::MAP_WIDTH * cfg::MAP_HEIGHT) as usize {
        return false;
    }
    let mut x: i32 = 0;
    while x < cfg::MAP_WIDTH
        invariant
            w == world@,
            w.map_ready(),
            0 <= x <= cfg::MAP_WIDTH,
            forall|a: int| 0 <= a < x ==> #[trigger] rock_at(w, a, 0),
            forall|a: int| 0 <= a < x ==> #[trigger] rock_at(w, a, cfg::MAP_HEIGHT - 1),
        decreases cfg::MAP_WIDTH - x,
    {
        let top = world.map[x as usize].block;
        let bottom = world.map[((cfg::MAP_HEIGHT - 1) * cfg::MAP_WIDTH + x) as usize].block;
        proof {
            assert(top == rock_at(w, x as int, 0));
            assert(bottom == rock_at(w, x as int, cfg::MAP_HEIGHT - 1));
        }
        if !top || !bottom {
            proof {
                assert(on_border(x as int, 0));
                assert(on_border(x as int, cfg::MAP_HEIGHT - 1));
            }
            return false;
        }
        x = x + 1;
    }
    let mut y: i32 = 0;
    while y < cfg::MAP_HEIGHT
        invariant
            w == world@,
            w.map_ready(),
            0 <= y <= cfg::MAP_HEIGHT,
            forall|a: int| 0 <= a < cfg::MAP_WIDTH ==> #[trigger] rock_at(w, a, 0),
            forall|a: int| 0 <= a < cfg::MAP_WIDTH ==> #[trigger] rock_at(w, a, cfg::MAP_HEIGHT - 1),
            forall|b: int| 0 <= b < y ==> #[trigger] rock_at(w, 0, b),
            forall|b: int| 0 <= b < y ==> #[trigger] rock_at(w, cfg::MAP_WIDTH - 1, b),
        decreases cfg::MAP_HEIGHT - y,
    {
        let left = world.map[(y * cfg::MAP_WIDTH) as usize].block;
        let right = world.map[(y * cfg::MAP_WIDTH + cfg::MAP_WIDTH - 1) as usize].block;
        proof {
            assert(left == rock_at(w, 0, y as int));
            assert(right == rock_at(w, cfg::MAP_WIDTH - 1, y as int));
        }
        if !left || !right {
            proof {
                assert(on_border(0, y as int));
                assert(on_border(cfg::MAP_WIDTH - 1, y as int));
            }
            return false;
        }
        y = y + 1;
    }
    proof {
        assert forall|a: int, b: int| on_border(a, b) implies #[trigger] w.map[crate::engine::game::map_index(a, b)].block by {
            if b == 0 {
                assert(rock_at(w, a, 0));
            } else if b == cfg::MAP_HEIGHT - 1 {
                assert(rock_at(w, a, cfg::MAP_HEIGHT - 1));
            } else if a == 0 {
                assert(rock_at(w, 0, b));
            } else {
                assert(rock_at(w, cfg::MAP_WIDTH - 1, b));
            }
        }
    }
    let mut k: usize = 0;
    while k < world.symbols.len()
        invariant
            w == world@,
            w.map_ready(),
            border_walls(w.map),
            k <= w.symbols.len(),
            forall|j: int| 0 <= j < k ==> inside_border(#[trigger] w.symbols[j].x as int, w.symbols[j].y as int),
        decreases w.symbols.len() - k,
    {
        let s = world.symbols[k];
        if !(1 <= s.x && s.x <= cfg::MAP_WIDTH - 2 && 1 <= s.y && s.y <= cfg::MAP_HEIGHT - 2) {
            proof {
                assert(!inside_border(w.symbols[k as int].x as int, w.symbols[k as int].y as int));
            }
            return false;
        }
        k = k + 1;
    }
    true
}

/// Whether a frame of the AI system can run.
pub fn is_ready(world: &World) -> (r: bool)
    requires
        world@.wf(),
    ensures
        r == ai_ready(world@),
{
    if world.player.state == PlayerState::MakingTurn && world.player_is_alive() && player_action_is_turn(
        world.player.action,
    ) {
        world.check_fit_for_turn() && check_walled_in(world)
    } else {
        true
    }
}

} // verus!
