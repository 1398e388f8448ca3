//! What the screen shows, decided apart from the drawing itself: how each
//! cell of the map looks, which objects are drawn and in what order, and the
//! texts of the panel and of the menus.
use crate::cfg;
use crate::cmtp::{Color, MapCell};
use crate::engine::entity::Indexes;
use crate::engine::game::{map_size, World, WorldView};
use crate::systems::input::menu_keys;
use crate::text::{int_text, int_to_string};
use vstd::prelude::*;

verus! {

/// The cell at `i` shows the pattern of the ground (one cell in each stretch
/// of 64 follows the bits of `GROUND_BITMAP`).
pub open spec fn ground_sprite(i: int) -> bool {
    (cfg::GROUND_BITMAP >> ((i % 64) as u64)) & 1u64 == 1u64
}

/// How the cell at `i` looks: its colours and glyph, or nothing while it is
/// unexplored. Walls show their bottom face above a cell that does not block
/// the sight; cells in view are lit.
pub open spec fn spec_cell_sprite(map: Seq<MapCell>, i: int) -> Option<(Color, Color, char)> {
    let x = i % cfg::MAP_WIDTH as int;
    let y = i / cfg::MAP_WIDTH as int;
    let visible = map[i].in_fov;
    let wall = map[i].block_sight;
    let wall_bottom = y + 1 < cfg::MAP_HEIGHT && wall && !map[(y + 1) * cfg::MAP_WIDTH + x].block_sight;
    let ground = ground_sprite(i);
    let look = if !visible {
        if wall {
            (cfg::color_dark_wall(), cfg::color_dark_wall_bg(), if wall_bottom { '\u{A1}' } else { '\u{A0}' })
        } else {
            (cfg::color_dark_ground(), cfg::color_dark_ground_bg(), if ground { '\u{A2}' } else { ' ' })
        }
    } else {
        if wall {
            (cfg::color_light_wall(), cfg::color_light_wall_bg(), if wall_bottom { '\u{A1}' } else { '\u{A0}' })
        } else {
            (cfg::color_light_ground(), cfg::color_light_ground_bg(), if ground { '\u{A2}' } else { ' ' })
        }
    };
    if map[i].explored {
        Some(look)
    } else {
        None
    }
}

/// How the cell at `i` of a complete map looks, if it is explored.
pub fn cell_sprite(map: &Vec<MapCell>, i: usize) -> (r: Option<(Color, Color, char)>)
    requires
        map@.len() == map_size(),
        i < map@.len(),
    ensures
        r == spec_cell_sprite(map@, i as int),
{
    let x = (i % (cfg::MAP_WIDTH as usize)) as i32;
    let y = (i / (cfg::MAP_WIDTH as usize)) as i32;
    let visible = map[i].in_fov;
    let wall = map[i].block_sight;
    let wall_bottom = y + 1 < cfg::MAP_HEIGHT && wall && !map[((y + 1) * cfg::MAP_WIDTH + x) as usize].block_sight;
    let ground = (cfg::GROUND_BITMAP >> ((i % 64) as u64)) & 1u64 == 1u64;
    let look = if !visible {
        if wall {
            (cfg::color_dark_wall(), cfg::color_dark_wall_bg(), if wall_bottom { '\u{A1}' } else { '\u{A0}' })
        } else {
            (cfg::color_dark_ground(), cfg::color_dark_ground_bg(), if ground { '\u{A2}' } else { ' ' })
        }
    } else {
        if wall {
            (cfg::color_light_wall(), cfg::color_light_wall_bg(), if wall_bottom { '\u{A1}' } else { '\u{A0}' })
        } else {
            (cfg::color_light_ground(), cfg::color_light_ground_bg(), if ground { '\u{A2}' } else { ' ' })
        }
    };
    if map[i].explored {
        Some(look)
    } else {
        None
    }
}

/// The entity with indexes `ix` is drawn: it is in view and not hidden, or
/// explored and always visible.
pub open spec fn drawn(w: WorldView, ix: Indexes) -> bool {
    &&& ix.symbol is Some
    &&& ix.map_object is Some
    &&& {
        let s = w.symbols[ix.symbol.unwrap() as int];
        let c = w.cell_at(s.x as int, s.y as int);
        let m = w.map_objects[ix.map_object.unwrap() as int];
        (c.in_fov && !m.hidden) || (c.explored && m.always_visible)
    }
}

/// The entities among the first `n` that are drawn, those that block the
/// way (`block`) or those that do not, in order of id.
pub open spec fn drawn_ids(w: WorldView, n: int, block: bool) -> Seq<Indexes>
    decreases n,
{
    if n <= 0 {
        Seq::empty()
    } else {
        let ix = w.entities[n - 1].1;
        let s = drawn_ids(w, n - 1, block);
        if drawn(w, ix) && w.map_objects[ix.map_object.unwrap() as int].block == block {
            s.push(ix)
        } else {
            s
        }
    }
}

/// What is drawn of an entity: where, which glyph, in which colour, and
/// whether it is a living character looking right (drawn with the next
/// glyph of the font).
pub open spec fn draw_entry(w: WorldView, ix: Indexes) -> (i32, i32, char, Color, bool) {
    let s = w.symbols[ix.symbol.unwrap() as int];
    let right = match ix.character {
        Some(k) => w.characters[k as int].looking_right && w.characters[k as int].alive,
        None => false,
    };
    (s.x, s.y, s.glyph, s.color, right)
}

/// The objects to draw, in the order to draw them: those that do not block
/// the way first, so that the others are drawn on top.
pub open spec fn spec_objects_to_draw(w: WorldView) -> Seq<(i32, i32, char, Color, bool)> {
    let n = w.entities.len() as int;
    (drawn_ids(w, n, false) + drawn_ids(w, n, true)).map_values(|ix: Indexes| draw_entry(w, ix))
}

fn collect_drawn(world: &World, block: bool) -> (r: Vec<(i32, i32, char, Color, bool)>)
    requires
        world@.wf(),
        world@.map_ready(),
    ensures
        r@ == drawn_ids(world@, world@.entities.len() as int, block).map_values(|ix: Indexes| draw_entry(world@, ix)),
{
    let ghost w = world@;
    let mut r: Vec<(i32, i32, char, Color, bool)> = Vec::new();
    let mut i: usize = 0;
    while i < world.entity_indexes.len()
        invariant
            w == world@,
            w.wf(),
            w.map_ready(),
            i <= w.entities.len(),
            r@ == drawn_ids(w, i as int, block).map_values(|ix: Indexes| draw_entry(w, ix)),
        decreases w.entities.len() - i,
    {
        let ix = world.entity_indexes[i].1;
        proof {
            assert(w.indexes_wf(w.entities[i as int].1));
        }
        match (ix.symbol, ix.map_object) {
            (Some(si), Some(mi)) => {
                proof {
                    w.lemma_symbol_on_grid(si as int);
                }
                let s = world.symbols[si];
                let c = world.map[(s.y * cfg::MAP_WIDTH + s.x) as usize];
                let m = &world.map_objects[mi];
                if ((c.in_fov && !m.hidden) || (c.explored && m.always_visible)) && m.block == block {
                    let right = match ix.character {
                        Some(k) => world.characters[k].looking_right && world.characters[k].alive,
                        None => false,
                    };
                    let ghost before = r@;
                    r.push((s.x, s.y, s.glyph, s.color, right));
                    proof {
                        assert(r@ =~= drawn_ids(w, i as int + 1, block).map_values(|ix: Indexes| draw_entry(w, ix)));
                    }
                }
            },
            _ => {},
        }
        i = i + 1;
    }
    r
}

/// The objects to draw, non-blocking ones first, each with its position,
/// glyph, colour, and whether it is a living character looking right.
pub fn objects_to_draw(world: &World) -> (r: Vec<(i32, i32, char, Color, bool)>)
    requires
        world@.wf(),
        world@.map_ready(),
    ensures
        r@ == spec_objects_to_draw(world@),
{
    let mut r = collect_drawn(world, false);
    let mut blocking = collect_drawn(world, true);
    r.append(&mut blocking);
    proof {
        let n = world@.entities.len() as int;
        let f = |ix: Indexes| draw_entry(world@, ix);
        assert((drawn_ids(world@, n, false) + drawn_ids(world@, n, true)).map_values(f) =~= drawn_ids(
            world@,
            n,
            false,
        ).map_values(f) + drawn_ids(world@, n, true).map_values(f));
    }
    r
}

/// The names, in order, of the entities the player looks at that are still
/// there.
pub open spec fn look_names(w: WorldView, n: int) -> Seq<Seq<char>>
    decreases n,
{
    if n <= 0 {
        Seq::empty()
    } else {
        let s = look_names(w, n - 1);
        match w.player.look_at[n - 1] {
            Some(id) => if w.has(id) {
                s.push(w.map_objects[w.ix(id).map_object.unwrap() as int].name)
            } else {
                s
            },
            None => s,
        }
    }
}

/// The names joined by commas.
pub open spec fn joined(names: Seq<Seq<char>>) -> Seq<char>
    decreases names.len(),
{
    if names.len() == 0 {
        Seq::empty()
    } else if names.len() == 1 {
        names[0]
    } else {
        joined(names.drop_last()) + ", "@ + names.last()
    }
}

/// What the player sees under the mouse: nothing out of the ordinary, the
/// names of the objects, or the first of them "and more" when every slot is
/// taken.
pub open spec fn spec_names_under_mouse(w: WorldView) -> Seq<char> {
    let names = look_names(w, w.player.look_at.len() as int);
    let max_len = w.player.look_at.len();
    if names.len() == 0 {
        "nothing out of the ordinary"@
    } else if names.len() == max_len {
        joined(names.subrange(0, max_len - 1)) + " and more..."@
    } else {
        joined(names)
    }
}

/// Every entity the player looks at that is still there has a name.
pub open spec fn look_named(w: WorldView) -> bool {
    forall|k: int|
        0 <= k < w.player.look_at.len() ==> match #[trigger] w.player.look_at[k] {
            Some(id) => w.has(id) ==> w.ix(id).map_object is Some,
            None => true,
        }
}

fn join_names(names: &Vec<String>, n: usize) -> (r: String)
    requires
        n <= names@.len(),
    ensures
        r@ == joined(names@.map_values(|s: String| s@).subrange(0, n as int)),
{
    let ghost v = names@.map_values(|s: String| s@);
    let mut r = String::new();
    let mut i: usize = 0;
    while i < n
        invariant
            v == names@.map_values(|s: String| s@),
            i <= n <= names@.len(),
            r@ == joined(v.subrange(0, i as int)),
        decreases n - i,
    {
        if i > 0 {
            r.append(", ");
        }
        r.append(names[i].as_str());
        proof {
            assert(v.subrange(0, i as int + 1).drop_last() =~= v.subrange(0, i as int));
            if i == 0 {
                assert(r@ =~= v.subrange(0, 1)[0]);
            }
        }
        i = i + 1;
    }
    r
}

/// Returns a string with the names of the objects under the mouse.
pub fn get_names_under_mouse(world: &World) -> (r: String)
    requires
        world@.wf(),
        look_named(world@),
    ensures
        r@ == spec_names_under_mouse(world@),
{
    let ghost w = world@;
    let mut names: Vec<String> = Vec::new();
    let mut k: usize = 0;
    while k < world.player.look_at.len()
        invariant
            w == world@,
            w.wf(),
            look_named(w),
            k <= w.player.look_at.len(),
            names@.map_values(|s: String| s@) == look_names(w, k as int),
        decreases w.player.look_at.len() - k,
    {
        if let Some(id) = world.player.look_at[k] {
            if let Some(ix) = world.get_indexes(id) {
                proof {
                    w.lemma_wf_indexes(id);
                    assert(match w.player.look_at[k as int] {
                        Some(id2) => w.has(id2) ==> w.ix(id2).map_object is Some,
                        None => true,
                    });
                }
                let name = world.map_objects[ix.map_object.unwrap()].name.clone();
                let ghost before = names@;
                names.push(name);
                proof {
                    assert(names@.map_values(|s: String| s@) =~= before.map_values(|s: String| s@).push(name@));
                }
            }
        }
        k = k + 1;
    }
    let max_len = world.player.look_at.len();
    if names.len() == 0 {
        String::from_str("nothing out of the ordinary")
    } else if names.len() == max_len {
        let mut r = join_names(&names, max_len - 1);
        r.append(" and more...");
        r
    } else {
        let r = join_names(&names, names.len());
        proof {
            assert(names@.map_values(|s: String| s@).subrange(0, names@.len() as int) =~= names@.map_values(
                |s: String| s@,
            ));
        }
        r
    }
}

/// The line of an option of a menu: its key in brackets, then its text.
pub open spec fn spec_option_line(index: int, text: Seq<char>) -> Seq<char> {
    "["@ + seq![menu_keys()[index]] + "] "@ + text
}

/// The line of the `index`-th option of a menu (a menu has at most 35).
pub fn option_line(index: usize, text: &String) -> (r: String)
    requires
        index < 35,
    ensures
        r@ == spec_option_line(index as int, text@),
{
    let keys = "123456789abcdefghijklmnopqrstuvwxyz";
    proof {
        reveal_strlit("123456789abcdefghijklmnopqrstuvwxyz");
    }
    let key = keys.substring_char(index, index + 1);
    let mut r = String::from_str("[");
    r.append(key);
    r.append("] ");
    r.append(text.as_str());
    proof {
        assert(key@ =~= seq![menu_keys()[index as int]]);
    }
    r
}

/// The text of a bar: its name, then the value over the maximum.
pub open spec fn spec_bar_text(name: Seq<char>, value: int, maximum: int) -> Seq<char> {
    name + ": "@ + int_text(value) + "/"@ + int_text(maximum)
}

pub fn bar_text(name: &str, value: i32, maximum: i32) -> (r: String)
    ensures
        r@ == spec_bar_text(name@, value as int, maximum as int),
{
    let mut r = String::from_str(name);
    r.append(": ");
    r.append(int_to_string(value).as_str());
    r.append("/");
    r.append(int_to_string(maximum).as_str());
    r
}

/// The line that tells how deep in the mine the player is.
pub fn level_text(level: u32) -> (r: String)
    requires
        level <= i32::MAX,
    ensures
        r@ == "Mine level: "@ + int_text(level as int),
{
    let mut r = String::from_str("Mine level: ");
    r.append(int_to_string(level as i32).as_str());
    r
}

/// Whether every entity the player looks at that is still there has a name.
pub fn check_look_named(world: &World) -> (r: bool)
    requires
        world@.wf(),
    ensures
        r == look_named(world@),
{
    let ghost w = world@;
    let mut k: usize = 0;
    while k < world.player.look_at.len()
        invariant
            w == world@,
            w.wf(),
            k <= w.player.look_at.len(),
            forall|j: int|
                0 <= j < k ==> match #[trigger] w.player.look_at[j] {
                    Some(id) => w.has(id) ==> w.ix(id).map_object is Some,
                    None => true,
                },
        decreases w.player.look_at.len() - k,
    {
        if let Some(id) = world.player.look_at[k] {
            if let Some(ix) = world.get_indexes(id) {
                if ix.map_object.is_none() {
                    return false;
                }
            }
        }
        k = k + 1;
    }
    true
}

} // verus!
