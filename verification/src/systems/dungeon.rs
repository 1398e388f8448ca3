//! Building the levels of the dungeon: rooms carved out of solid rock,
//! joined by tunnels, with monsters, items and the stairs down.
use crate::cfg;
use crate::cmtp::{AiOption, Character, Color, MapCell, MapObject, MapObjectView, OwnedItem, PlayerAction, PlayerState, PlayerView, Symbol};
use crate::engine::asset::{char_weights, id_pos, ids_distinct, item_weights, spec_weight_for_level, CharacterView, CharactersLoader, ItemView, ItemsLoader};
use crate::rng::{some_weight, total_weight};
use crate::engine::entity::{BuilderView, Indexes};
use crate::engine::game::{self, in_map, lemma_in_map_on_grid, map_index, map_size, new_entity, on_grid, World, WorldView};
use vstd::prelude::*;

verus! {

/// A rectangle on the map, used to characterise a room.
#[derive(Clone, Copy, Debug, PartialEq, Eq, Structural)]
pub struct Rect {
    pub x1: i32,
    pub y1: i32,
    pub x2: i32,
    pub y2: i32,
}

impl Rect {
    pub fn new(x: i32, y: i32, w: i32, h: i32) -> (r: Self)
        requires
            i32::MIN <= x + w <= i32::MAX,
            i32::MIN <= y + h <= i32::MAX,
        ensures
            r == (Rect { x1: x, y1: y, x2: (x + w) as i32, y2: (y + h) as i32 }),
    {
        Rect { x1: x, y1: y, x2: x + w, y2: y + h }
    }

    /// The center of the rectangle (rounded towards zero).
    pub open spec fn spec_center(self) -> (int, int) {
        ((self.x1 + self.x2) / 2, (self.y1 + self.y2) / 2)
    }

    pub fn center(&self) -> (r: (i32, i32))
        requires
            0 <= self.x1,
            0 <= self.x2,
            0 <= self.y1,
            0 <= self.y2,
            self.x1 + self.x2 <= i32::MAX,
            self.y1 + self.y2 <= i32::MAX,
        ensures
            r.0 == self.spec_center().0,
            r.1 == self.spec_center().1,
    {
        let center_x = (self.x1 + self.x2) / 2;
        let center_y = (self.y1 + self.y2) / 2;
        (center_x, center_y)
    }

    /// The two rectangles overlap or touch.
    pub open spec fn spec_intersects_with(self, other: Rect) -> bool {
        self.x1 <= other.x2 && self.x2 >= other.x1 && self.y1 <= other.y2 && self.y2 >= other.y1
    }

    pub fn intersects_with(&self, other: &Rect) -> (r: bool)
        ensures
            r == self.spec_intersects_with(*other),
    {
        (self.x1 <= other.x2) && (self.x2 >= other.x1) && (self.y1 <= other.y2) && (self.y2 >= other.y1)
    }

    /// The rectangle lies on the map with a wall all around its inside.
    pub open spec fn on_map(self) -> bool {
        &&& 0 <= self.x1 < self.x2 < cfg::MAP_WIDTH
        &&& 0 <= self.y1 < self.y2 < cfg::MAP_HEIGHT
    }

    /// `(x, y)` lies inside the rectangle, walls excluded.
    pub open spec fn inside(self, x: int, y: int) -> bool {
        self.x1 < x < self.x2 && self.y1 < y < self.y2
    }
}

/// A cell cleared of rock: it blocks neither the way nor the sight.
pub open spec fn opened_cell(c: MapCell) -> MapCell {
    MapCell { block: false, block_sight: false, ..c }
}

/// The map with the cells of `area` (by position) cleared.
pub open spec fn opened(map: Seq<MapCell>, area: spec_fn(int, int) -> bool) -> Seq<MapCell> {
    Seq::new(
        map.len(),
        |i: int|
            if area(i % cfg::MAP_WIDTH as int, i / cfg::MAP_WIDTH as int) {
                opened_cell(map[i])
            } else {
                map[i]
            },
    )
}

/// The inside of a room.
pub open spec fn room_area(r: Rect) -> spec_fn(int, int) -> bool {
    |x: int, y: int| r.inside(x, y)
}

pub open spec fn min(a: int, b: int) -> int {
    if a <= b {
        a
    } else {
        b
    }
}

pub open spec fn max(a: int, b: int) -> int {
    if a >= b {
        a
    } else {
        b
    }
}

/// A horizontal tunnel on row `y`, between columns `x1` and `x2` included.
pub open spec fn h_area(x1: int, x2: int, y: int) -> spec_fn(int, int) -> bool {
    |x: int, yy: int| yy == y && min(x1, x2) <= x <= max(x1, x2)
}

/// A vertical tunnel on column `x`, between rows `y1` and `y2` included.
pub open spec fn v_area(y1: int, y2: int, x: int) -> spec_fn(int, int) -> bool {
    |xx: int, y: int| xx == x && min(y1, y2) <= y <= max(y1, y2)
}

/// The cell at `i` is at the position `(i % MAP_WIDTH, i / MAP_WIDTH)`.
pub proof fn lemma_cell_position(x: int, y: int)
    requires
        0 <= x < cfg::MAP_WIDTH,
        0 <= y,
    ensures
        map_index(x, y) % cfg::MAP_WIDTH as int == x,
        map_index(x, y) / cfg::MAP_WIDTH as int == y,
{
    vstd::arithmetic::div_mod::lemma_fundamental_div_mod_converse(map_index(x, y), cfg::MAP_WIDTH as int, y, x);
}

/// Two cells at the same position are the same cell.
pub proof fn lemma_position_unique(i: int, x: int, y: int)
    requires
        0 <= i,
        0 <= x < cfg::MAP_WIDTH,
        0 <= y,
        i % cfg::MAP_WIDTH as int == x,
        i / cfg::MAP_WIDTH as int == y,
    ensures
        i == map_index(x, y),
{
    vstd::arithmetic::div_mod::lemma_fundamental_div_mod(i, cfg::MAP_WIDTH as int);
}

/// Clearing one more cell of an area.
pub proof fn lemma_open_one(m0: Seq<MapCell>, area: spec_fn(int, int) -> bool, x: int, y: int)
    requires
        0 <= x < cfg::MAP_WIDTH,
        0 <= y < cfg::MAP_HEIGHT,
        m0.len() == map_size(),
        !area(x, y),
    ensures
        ({
            let m = opened(m0, area);
            let k = map_index(x, y);
            m.update(k, opened_cell(m[k])) == opened(m0, |a: int, b: int| area(a, b) || (a == x && b == y))
        }),
{
    let m = opened(m0, area);
    let k = map_index(x, y);
    lemma_cell_position(x, y);
    let want = opened(m0, |a: int, b: int| area(a, b) || (a == x && b == y));
    assert forall|i: int| 0 <= i < m.len() implies #[trigger] m.update(k, opened_cell(m[k]))[i] == want[i] by {
        if i != k {
            if i % cfg::MAP_WIDTH as int == x && i / cfg::MAP_WIDTH as int == y {
                lemma_position_unique(i, x, y);
            }
        }
    }
    assert(m.update(k, opened_cell(m[k])) =~= want);
}

/// Clears the cell at `(x, y)`.
fn open_cell(map: &mut Vec<MapCell>, x: i32, y: i32)
    requires
        0 <= x < cfg::MAP_WIDTH,
        0 <= y < cfg::MAP_HEIGHT,
        old(map)@.len() == map_size(),
    ensures
        final(map)@ == old(map)@.update(map_index(x as int, y as int), opened_cell(old(map)@[map_index(x as int, y as int)])),
{
    let index_in_map = (y * cfg::MAP_WIDTH + x) as usize;
    let mut c = map[index_in_map];
    c.block = false;
    c.block_sight = false;
    map.set(index_in_map, c);
}

/// Clears the inside of the room.
pub fn create_room(room: Rect, map: &mut Vec<MapCell>)
    requires
        room.on_map(),
        old(map)@.len() == map_size(),
    ensures
        final(map)@ == opened(old(map)@, room_area(room)),
{
    let ghost m0 = map@;
    proof {
        assert(m0 =~= opened(m0, |a: int, b: int| false));
    }
    let mut x = room.x1 + 1;
    while x < room.x2
        invariant
            room.on_map(),
            m0.len() == map_size(),
            room.x1 + 1 <= x <= room.x2,
            map@ == opened(m0, |a: int, b: int| room.x1 < a < x && room.y1 < b < room.y2),
        decreases room.x2 - x,
    {
        let mut y = room.y1 + 1;
        proof {
            assert(opened(m0, |a: int, b: int| room.x1 < a < x && room.y1 < b < room.y2) =~= opened(
                m0,
                |a: int, b: int| (room.x1 < a < x && room.y1 < b < room.y2) || (a == x && room.y1 < b < y),
            ));
        }
        while y < room.y2
            invariant
                room.on_map(),
                m0.len() == map_size(),
                room.x1 + 1 <= x < room.x2,
                room.y1 + 1 <= y <= room.y2,
                map@ == opened(m0, |a: int, b: int| (room.x1 < a < x && room.y1 < b < room.y2) || (a == x && room.y1 < b < y)),
            decreases room.y2 - y,
        {
            proof {
                lemma_open_one(
                    m0,
                    |a: int, b: int| (room.x1 < a < x && room.y1 < b < room.y2) || (a == x && room.y1 < b < y),
                    x as int,
                    y as int,
                );
            }
            open_cell(map, x, y);
            y = y + 1;
            proof {
                assert(map@ =~= opened(
                    m0,
                    |a: int, b: int| (room.x1 < a < x && room.y1 < b < room.y2) || (a == x && room.y1 < b < y),
                ));
            }
        }
        x = x + 1;
        proof {
            assert(map@ =~= opened(m0, |a: int, b: int| room.x1 < a < x && room.y1 < b < room.y2));
        }
    }
    proof {
        assert(map@ =~= opened(m0, room_area(room)));
    }
}

/// Clears a horizontal tunnel on row `y`, from column `x1` to column `x2`.
pub fn create_h_tunnel(x1: i32, x2: i32, y: i32, map: &mut Vec<MapCell>)
    requires
        0 <= x1 < cfg::MAP_WIDTH,
        0 <= x2 < cfg::MAP_WIDTH,
        0 <= y < cfg::MAP_HEIGHT,
        old(map)@.len() == map_size(),
    ensures
        final(map)@ == opened(old(map)@, h_area(x1 as int, x2 as int, y as int)),
{
    let ghost m0 = map@;
    let lo = if x1 <= x2 { x1 } else { x2 };
    let hi = if x1 <= x2 { x2 } else { x1 };
    proof {
        assert(m0 =~= opened(m0, |a: int, b: int| b == y && lo <= a < lo));
    }
    let mut x = lo;
    while x <= hi
        invariant
            0 <= lo <= hi < cfg::MAP_WIDTH,
            0 <= y < cfg::MAP_HEIGHT,
            m0.len() == map_size(),
            lo <= x <= hi + 1,
            map@ == opened(m0, |a: int, b: int| b == y && lo <= a < x),
        decreases hi + 1 - x,
    {
        proof {
            lemma_open_one(m0, |a: int, b: int| b == y && lo <= a < x, x as int, y as int);
        }
        open_cell(map, x, y);
        x = x + 1;
        proof {
            assert(map@ =~= opened(m0, |a: int, b: int| b == y && lo <= a < x));
        }
    }
    proof {
        assert(map@ =~= opened(m0, h_area(x1 as int, x2 as int, y as int)));
    }
}

/// Clears a vertical tunnel on column `x`, from row `y1` to row `y2`.
pub fn create_v_tunnel(y1: i32, y2: i32, x: i32, map: &mut Vec<MapCell>)
    requires
        0 <= y1 < cfg::MAP_HEIGHT,
        0 <= y2 < cfg::MAP_HEIGHT,
        0 <= x < cfg::MAP_WIDTH,
        old(map)@.len() == map_size(),
    ensures
        final(map)@ == opened(old(map)@, v_area(y1 as int, y2 as int, x as int)),
{
    let ghost m0 = map@;
    let lo = if y1 <= y2 { y1 } else { y2 };
    let hi = if y1 <= y2 { y2 } else { y1 };
    proof {
        assert(m0 =~= opened(m0, |a: int, b: int| a == x && lo <= b < lo));
    }
    let mut y = lo;
    while y <= hi
        invariant
            0 <= lo <= hi < cfg::MAP_HEIGHT,
            0 <= x < cfg::MAP_WIDTH,
            m0.len() == map_size(),
            lo <= y <= hi + 1,
            map@ == opened(m0, |a: int, b: int| a == x && lo <= b < y),
        decreases hi + 1 - y,
    {
        proof {
            lemma_open_one(m0, |a: int, b: int| a == x && lo <= b < y, x as int, y as int);
        }
        open_cell(map, x, y);
        y = y + 1;
        proof {
            assert(map@ =~= opened(m0, |a: int, b: int| a == x && lo <= b < y));
        }
    }
    proof {
        assert(map@ =~= opened(m0, v_area(y1 as int, y2 as int, x as int)));
    }
}

/// A cell of solid rock.
pub open spec fn wall_cell() -> MapCell {
    MapCell { block: true, explored: false, block_sight: true, in_fov: false }
}

/// An entity holding one cell of rock.
pub open spec fn wall_builder() -> BuilderView {
    BuilderView { map_cell: Some(wall_cell()), ..BuilderView::empty() }
}

/// The world after `n` cells of rock are added, each as an entity.
pub open spec fn walls_added(w: WorldView, n: int) -> WorldView
    decreases n,
{
    if n <= 0 {
        w
    } else {
        wall_builder().stored_in(walls_added(w, n - 1))
    }
}

pub proof fn lemma_walls_added(w: WorldView, n: int)
    requires
        0 <= n,
        w.id_count + n <= u32::MAX,
    ensures
        walls_added(w, n).map == w.map + Seq::new(n as nat, |i: int| wall_cell()),
        walls_added(w, n).id_count == w.id_count + n,
        walls_added(w, n).entities.len() == w.entities.len() + n,
        walls_added(w, n).entities.subrange(0, w.entities.len() as int) == w.entities,
        forall|i: int|
            w.entities.len() <= i < walls_added(w, n).entities.len() ==> {
                let e = #[trigger] walls_added(w, n).entities[i];
                &&& e.1.symbol is None
                &&& e.1.map_object is None
                &&& e.1.character is None
                &&& e.1.item is None
            },
        walls_added(w, n).player == w.player,
        walls_added(w, n).symbols == w.symbols,
        walls_added(w, n).map_objects == w.map_objects,
        walls_added(w, n).characters == w.characters,
        walls_added(w, n).ais == w.ais,
        walls_added(w, n).items == w.items,
        walls_added(w, n).equipments == w.equipments,
        walls_added(w, n).ammos == w.ammos,
        walls_added(w, n).log == w.log,
        walls_added(w, n).dialogs == w.dialogs,
        walls_added(w, n).must_be_destroyed == w.must_be_destroyed,
    decreases n,
{
    if n > 0 {
        lemma_walls_added(w, n - 1);
        let prev = walls_added(w, n - 1);
        assert(walls_added(w, n).map =~= w.map + Seq::new(n as nat, |i: int| wall_cell()));
        assert(walls_added(w, n).entities.subrange(0, w.entities.len() as int) =~= w.entities) by {
            assert(prev.entities.subrange(0, w.entities.len() as int) == w.entities);
        }
        assert forall|i: int| w.entities.len() <= i < walls_added(w, n).entities.len() implies {
            let e = #[trigger] walls_added(w, n).entities[i];
            &&& e.1.symbol is None
            &&& e.1.map_object is None
            &&& e.1.character is None
            &&& e.1.item is None
        } by {
            if i < prev.entities.len() {
                assert(walls_added(w, n).entities[i] == prev.entities[i]);
            }
        }
    }
}

/// Fills the map with rock, cell after cell.
pub fn fill_walls(world: &mut World)
    requires
        old(world)@.wf(),
        old(world).id_count + map_size() <= u32::MAX,
    ensures
        final(world)@.wf(),
        final(world)@ == walls_added(old(world)@, map_size()),
{
    let ghost pre = world@;
    let n = (cfg::MAP_WIDTH * cfg::MAP_HEIGHT) as usize;
    let mut i: usize = 0;
    while i < n
        invariant
            n == map_size(),
            i <= n,
            pre.id_count + map_size() <= u32::MAX,
            world@.wf(),
            world@ == walls_added(pre, i as int),
            world.id_count == pre.id_count + i,
        decreases n - i,
    {
        new_entity().add_map_cell(MapCell { block: true, explored: false, block_sight: true, in_fov: false }).create(
            world,
        );
        i = i + 1;
    }
}

/// The stairs down, at `(x, y)`.
pub open spec fn stairs_builder(x: int, y: int) -> BuilderView {
    BuilderView {
        symbol: Some(Symbol { x: x as i32, y: y as i32, glyph: '\u{A4}', color: cfg::color_light_wall() }),
        map_object: Some(MapObjectView { name: "stairs"@, block: false, always_visible: true, hidden: false }),
        ..BuilderView::empty()
    }
}

/// Puts the stairs down at `(x, y)`.
pub fn spawn_stairs(world: &mut World, x: i32, y: i32)
    requires
        old(world)@.wf(),
        old(world).id_count < u32::MAX,
        on_grid(x as int, y as int),
    ensures
        final(world)@.wf(),
        final(world)@ == stairs_builder(x as int, y as int).stored_in(old(world)@),
{
    let glyph = '\u{A4}';
    let color = cfg::color_light_wall();
    let map_object = MapObject {
        name: String::from_str("stairs"),
        block: false,
        always_visible: true,
        hidden: false,
    };
    new_entity().add_symbol(Symbol { x, y, glyph, color }).add_map_object(map_object).create(world);
}

/// From dungeon level `level` on, a quantity is `value`.
#[derive(Clone, Copy, Debug, PartialEq, Eq, Structural)]
pub struct Transition {
    pub level: u32,
    pub value: u32,
}

/// The value of the last transition reached by `level` (0 when none is).
pub open spec fn spec_from_dungeon_level(table: Seq<Transition>, level: int) -> int
    decreases table.len(),
{
    if table.len() == 0 {
        0
    } else if level >= table.last().level {
        table.last().value as int
    } else {
        spec_from_dungeon_level(table.drop_last(), level)
    }
}

/// Returns a value that depends on the level: the table says what value
/// holds from each level on; before the first, it is 0.
pub fn from_dungeon_level(table: &[Transition], level: u32) -> (r: u32)
    ensures
        r == spec_from_dungeon_level(table@, level as int),
{
    let mut i: usize = table.len();
    proof {
        assert(table@.subrange(0, i as int) =~= table@);
    }
    while i > 0
        invariant
            i <= table@.len(),
            spec_from_dungeon_level(table@.subrange(0, i as int), level as int) == spec_from_dungeon_level(
                table@,
                level as int,
            ),
        decreases i,
    {
        let ghost s = table@.subrange(0, i as int);
        let t = table[i - 1];
        if level >= t.level {
            return t.value;
        }
        i = i - 1;
        proof {
            assert(s.drop_last() =~= table@.subrange(0, i as int));
        }
    }
    0
}

/// Whether `(x, y)` is rock or holds an object in the way.
pub fn is_blocked(x: i32, y: i32, world: &World) -> (r: bool)
    requires
        world@.wf(),
        world@.map_ready(),
        on_grid(x as int, y as int),
    ensures
        r == world@.is_blocked(x as int, y as int),
{
    world.is_blocked(x, y)
}

/// The player leaves for the main menu: it cancels during its turn with no
/// dialog open.
pub open spec fn spec_is_exiting_to_main_menu(w: WorldView) -> bool {
    w.dialogs.len() == 0 && w.player.action == PlayerAction::Cancel && w.player.state == PlayerState::MakingTurn
}

pub fn is_exiting_to_main_menu(world: &World) -> (r: bool)
    ensures
        r == spec_is_exiting_to_main_menu(world@),
{
    world.dialogs.len() == 0 && (world.player.action == PlayerAction::Cancel) && (world.player.state
        == PlayerState::MakingTurn)
}

/// Where the hints on how to move are drawn, in the room at `(x, y)`: the
/// eight cells around its middle, each with an arrow.
pub open spec fn hint_marks(x: int, y: int) -> Seq<(int, int, char)> {
    seq![
        (x + 2, y + 2, '\u{14}'),
        (x + 2, y + 4, '\u{15}'),
        (x + 4, y + 2, '\u{16}'),
        (x + 4, y + 4, '\u{17}'),
        (x + 3, y + 2, '\u{18}'),
        (x + 3, y + 4, '\u{19}'),
        (x + 4, y + 3, '\u{1A}'),
        (x + 2, y + 3, '\u{1B}'),
    ]
}

/// A hint drawn at a mark.
pub open spec fn hint_builder(m: (int, int, char)) -> BuilderView {
    BuilderView {
        symbol: Some(Symbol { x: m.0 as i32, y: m.1 as i32, glyph: m.2, color: cfg::color_light_ground() }),
        map_object: Some(MapObjectView { name: "move hint"@, block: false, always_visible: false, hidden: false }),
        ..BuilderView::empty()
    }
}

/// The world after the hints at the first `n` marks are added.
pub open spec fn hints_added(w: WorldView, marks: Seq<(int, int, char)>, n: int) -> WorldView
    decreases n,
{
    if n <= 0 {
        w
    } else {
        hint_builder(marks[n - 1]).stored_in(hints_added(w, marks, n - 1))
    }
}

/// The world with the `n` hint entities added to `w`.
pub proof fn lemma_hints_added(w: WorldView, marks: Seq<(int, int, char)>, n: int)
    requires
        0 <= n <= marks.len(),
        w.id_count + n <= u32::MAX,
    ensures
        hints_added(w, marks, n).map == w.map,
        hints_added(w, marks, n).player == w.player,
        hints_added(w, marks, n).id_count == w.id_count + n,
        hints_added(w, marks, n).entities.len() == w.entities.len() + n,
        hints_added(w, marks, n).entities.subrange(0, w.entities.len() as int) == w.entities,
        hints_added(w, marks, n).symbols.len() == w.symbols.len() + n,
        hints_added(w, marks, n).symbols.subrange(0, w.symbols.len() as int) == w.symbols,
        hints_added(w, marks, n).characters == w.characters,
        hints_added(w, marks, n).items == w.items,
        hints_added(w, marks, n).equipments == w.equipments,
        forall|i: int|
            w.entities.len() <= i < hints_added(w, marks, n).entities.len() ==> {
                let e = #[trigger] hints_added(w, marks, n).entities[i];
                &&& e.1.character is None
                &&& e.1.item is None
            },
    decreases n,
{
    if n > 0 {
        lemma_hints_added(w, marks, n - 1);
        let prev = hints_added(w, marks, n - 1);
        let post = hints_added(w, marks, n);
        assert(post.entities.subrange(0, w.entities.len() as int) =~= w.entities) by {
            assert(prev.entities.subrange(0, w.entities.len() as int) == w.entities);
        }
        assert(post.symbols.subrange(0, w.symbols.len() as int) =~= w.symbols) by {
            assert(prev.symbols.subrange(0, w.symbols.len() as int) == w.symbols);
        }
        assert forall|i: int| w.entities.len() <= i < post.entities.len() implies {
            let e = #[trigger] post.entities[i];
            &&& e.1.character is None
            &&& e.1.item is None
        } by {
            if i < prev.entities.len() {
                assert(post.entities[i] == prev.entities[i]);
            }
        }
    }
}

/// The first room of the first level, at `(x, y)`: it is cleared, the hints
/// are drawn in it, and the player stands in its middle.
pub open spec fn hints_placed(w: WorldView, x: int, y: int) -> WorldView {
    let room = Rect { x1: x as i32, y1: y as i32, x2: (x + 6) as i32, y2: (y + 6) as i32 };
    let w1 = WorldView { map: opened(w.map, room_area(room)), ..w };
    let w2 = hints_added(w1, hint_marks(x, y), 8);
    let k = w.ix(w.player.id).symbol.unwrap() as int;
    WorldView { symbols: w2.symbols.update(k, Symbol { x: (x + 3) as i32, y: (y + 3) as i32, ..w2.symbols[k] }), ..w2 }
}

/// The first room of the first level at `(x, y)`, with the hints on how to
/// move and the player in its middle.
pub fn place_hints_at(world: &mut World, rooms: &mut Vec<Rect>, x: i32, y: i32)
    requires
        old(world)@.wf(),
        old(world)@.map_ready(),
        old(world)@.is_character(old(world)@.player.id),
        old(world).id_count + 8 <= u32::MAX,
        0 <= x < cfg::MAP_WIDTH - 6,
        0 <= y < cfg::MAP_HEIGHT - 6,
    ensures
        final(world)@.wf(),
        final(world)@ == hints_placed(old(world)@, x as int, y as int),
        final(rooms)@ == old(rooms)@.push(Rect { x1: x, y1: y, x2: (x + 6) as i32, y2: (y + 6) as i32 }),
{
    let ghost pre = world@;
    let pix = world.get_indexes(world.player.id).unwrap();
    proof {
        pre.lemma_wf_indexes(pre.player.id);
    }
    let new_room = Rect::new(x, y, 6, 6);
    create_room(new_room, &mut world.map);
    let ghost w1 = world@;
    proof {
        assert(w1 == WorldView { map: opened(pre.map, room_area(new_room)), ..pre });
        assert forall|i: int| 0 <= i < w1.entities.len() implies w1.indexes_wf(#[trigger] w1.entities[i].1) by {
            assert(pre.indexes_wf(pre.entities[i].1));
        }
    }
    let color = cfg::color_light_ground();
    let hints: Vec<(i32, i32, char)> = vec![
        (x + 2, y + 2, '\u{14}'),
        (x + 2, y + 4, '\u{15}'),
        (x + 4, y + 2, '\u{16}'),
        (x + 4, y + 4, '\u{17}'),
        (x + 3, y + 2, '\u{18}'),
        (x + 3, y + 4, '\u{19}'),
        (x + 4, y + 3, '\u{1A}'),
        (x + 2, y + 3, '\u{1B}'),
    ];
    let ghost marks = hint_marks(x as int, y as int);
    let mut i: usize = 0;
    while i < hints.len()
        invariant
            hints@.len() == 8,
            forall|j: int|
                0 <= j < 8 ==> {
                    &&& (#[trigger] hints@[j]).0 == marks[j].0
                    &&& hints@[j].1 == marks[j].1
                    &&& hints@[j].2 == marks[j].2
                },
            marks == hint_marks(x as int, y as int),
            0 <= x < cfg::MAP_WIDTH - 6,
            0 <= y < cfg::MAP_HEIGHT - 6,
            color == cfg::color_light_ground(),
            i <= 8,
            w1.id_count + 8 <= u32::MAX,
            world@.wf(),
            world@ == hints_added(w1, marks, i as int),
            world.id_count == w1.id_count + i,
        decreases 8 - i,
    {
        let (hx, hy, glyph) = hints[i];
        let map_object = MapObject {
            name: String::from_str("move hint"),
            block: false,
            always_visible: false,
            hidden: false,
        };
        proof {
            assert(hints@[i as int].0 == marks[i as int].0);
        }
        new_entity().add_symbol(Symbol { x: hx, y: hy, glyph, color }).add_map_object(map_object).create(world);
        i = i + 1;
    }
    proof {
        lemma_hints_added(w1, marks, 8);
        let w2 = world@;
        pre.lemma_has_appended(w2, pre.player.id);
    }
    let si = pix.symbol.unwrap();
    let mut player_symbol = world.symbols[si];
    player_symbol.x = x + 3;
    player_symbol.y = y + 3;
    world.symbols.set(si, player_symbol);
    rooms.push(new_room);
    proof {
        let post = world@;
        assert forall|i: int| 0 <= i < post.symbols.len() implies on_grid(
            #[trigger] post.symbols[i].x as int,
            post.symbols[i].y as int,
        ) by {
            if i != si as int {
                let w2 = hints_added(w1, marks, 8);
                assert(on_grid(w2.symbols[i].x as int, w2.symbols[i].y as int));
            }
        }
        assert forall|i: int| 0 <= i < post.entities.len() implies post.indexes_wf(#[trigger] post.entities[i].1) by {
            let w2 = hints_added(w1, marks, 8);
            assert(w2.indexes_wf(w2.entities[i].1));
        }
    }
}

/// The first room of the first level, at a random place, with the hints on
/// how to move and the player in its middle. Wherever it is drawn, it lies
/// on the map with rock all around.
pub fn place_hints(world: &mut World, rooms: &mut Vec<Rect>)
    requires
        old(world)@.wf(),
        old(world)@.map_ready(),
        old(world)@.is_character(old(world)@.player.id),
        old(world).id_count + 8 <= u32::MAX,
    ensures
        final(world)@.wf(),
        exists|x: int, y: int|
            0 <= x < cfg::MAP_WIDTH - 6 && 0 <= y < cfg::MAP_HEIGHT - 6 && final(world)@ == #[trigger] hints_placed(
                old(world)@,
                x,
                y,
            ) && final(rooms)@ == old(rooms)@.push(Rect { x1: x as i32, y1: y as i32, x2: (x + 6) as i32, y2: (y + 6) as i32 }),
{
    let x = crate::rng::gen_range(0, cfg::MAP_WIDTH - 6);
    let y = crate::rng::gen_range(0, cfg::MAP_HEIGHT - 6);
    place_hints_at(world, rooms, x, y);
}

/// The template of the player.
pub open spec fn player_template(cl: &CharactersLoader) -> CharacterView {
    cl.char_vals@[id_pos(cl.ids(), "player"@)].1@
}

/// The template of the pipe the player starts with.
pub open spec fn pipe_template(il: &ItemsLoader) -> ItemView {
    il.item_vals@[id_pos(il.ids(), "pipe"@)].1@
}

/// The player, alive, in the middle of the screen.
pub open spec fn player_builder(t: CharacterView) -> BuilderView {
    BuilderView {
        symbol: Some(Symbol { x: (cfg::SCREEN_WIDTH / 2) as i32, y: (cfg::SCREEN_HEIGHT / 2) as i32, ..t.symbol }),
        map_object: Some(t.map_object),
        character: Some(Character { alive: true, ..t.character }),
        ai: Some(AiOption { option: t.ai }),
        ..BuilderView::empty()
    }
}

/// An item made from its template, owned by `owner`.
pub open spec fn owned_item_builder(t: ItemView, owner: u32) -> BuilderView {
    BuilderView {
        symbol: Some(t.symbol),
        map_object: Some(t.map_object),
        item: Some(OwnedItem { owner, ..t.item }),
        equipment: t.equipment,
        ..BuilderView::empty()
    }
}

pub open spec fn welcome_msg() -> Seq<char> {
    "Welcome stranger! Prepare to perish in the Abandoned Mines. Press F1 for help.\n"@
}

/// The world with the player added: the player from its template, carrying
/// a pipe, a word of welcome, and the first level to start on.
pub open spec fn player_spawned(w: WorldView, cl: &CharactersLoader, il: &ItemsLoader) -> WorldView {
    let w1 = player_builder(player_template(cl)).stored_in(w);
    let w2 = WorldView { player: PlayerView { id: w1.id_count, ..w1.player }, ..w1 };
    let w3 = owned_item_builder(pipe_template(il), w2.player.id).stored_in(w2);
    let w4 = w3.with_log(welcome_msg(), cfg::color_orange());
    if w4.player.dungeon_level == 0 {
        WorldView { player: PlayerView { dungeon_level: 1, ..w4.player }, ..w4 }
    } else {
        w4
    }
}

/// What spawning the player needs from the templates: a player and a pipe,
/// the pipe drawn on the map.
pub open spec fn player_templates_ok(cl: &CharactersLoader, il: &ItemsLoader) -> bool {
    &&& id_pos(cl.ids(), "player"@) >= 0
    &&& id_pos(il.ids(), "pipe"@) >= 0
    &&& in_map(pipe_template(il).symbol.x as int, pipe_template(il).symbol.y as int)
}

/// Adds the player, with the pipe it starts with.
pub fn spawn_player(world: &mut World, char_loader: &CharactersLoader, items_loader: &ItemsLoader)
    requires
        old(world)@.wf(),
        old(world).id_count + 3 <= u32::MAX,
        player_templates_ok(char_loader, items_loader),
    ensures
        final(world)@.wf(),
        final(world)@ == player_spawned(old(world)@, char_loader, items_loader),
{
    let ghost pre = world@;
    let mut player = char_loader.get_clone("player");
    player.character.alive = true;
    player.symbol.x = cfg::SCREEN_WIDTH / 2;
    player.symbol.y = cfg::SCREEN_HEIGHT / 2;
    world.player.id = new_entity().add_symbol(player.symbol).add_map_object(player.map_object).add_character(
        player.character,
    ).add_ai(AiOption { option: player.ai }).create(world);
    proof {
        assert(world@.player.look_at =~= pre.player.look_at);
    }
    // initial equipment: a pipe
    let mut pipe = items_loader.get_clone("pipe");
    pipe.item.owner = world.player.id;
    new_entity().add_symbol(pipe.symbol).add_map_object(pipe.map_object).add_item(pipe.item).add_equipment(
        pipe.equipment,
    ).create(world);
    world.add_log(
        cfg::color_orange(),
        String::from_str("Welcome stranger! Prepare to perish in the Abandoned Mines. Press F1 for help.\n"),
    );
    if world.player.dungeon_level == 0 {
        world.player.dungeon_level = 1;
    }
    proof {
        assert(world@.player.look_at =~= player_spawned(pre, char_loader, items_loader).player.look_at);
    }
}

/// `b` begins with `a`.
pub open spec fn grown<T>(a: Seq<T>, b: Seq<T>) -> bool {
    a.len() <= b.len() && b.subrange(0, a.len() as int) == a
}

/// Everything `pre` holds is still in place in `post`; only more was added.
pub open spec fn components_kept(pre: WorldView, post: WorldView) -> bool {
    &&& grown(pre.entities, post.entities)
    &&& grown(pre.symbols, post.symbols)
    &&& grown(pre.map_objects, post.map_objects)
    &&& grown(pre.characters, post.characters)
    &&& grown(pre.ais, post.ais)
    &&& grown(pre.items, post.items)
    &&& grown(pre.equipments, post.equipments)
    &&& grown(pre.ammos, post.ammos)
    &&& grown(pre.log, post.log)
    &&& grown(pre.dialogs, post.dialogs)
}

/// The entity with indexes `ix` stands on a cell free of rock.
pub open spec fn on_floor(w: WorldView, ix: Indexes) -> bool {
    ix.symbol matches Some(si) && !w.cell_at(w.symbols[si as int].x as int, w.symbols[si as int].y as int).block
}

/// The entity with indexes `ix` stands inside `room`.
pub open spec fn in_room(w: WorldView, ix: Indexes, room: Rect) -> bool {
    ix.symbol matches Some(si) && room.inside(w.symbols[si as int].x as int, w.symbols[si as int].y as int)
}

/// The indexes of a monster: drawn, named, fighting and thinking, nothing else.
pub open spec fn monster_shape(ix: Indexes) -> bool {
    &&& ix.symbol is Some
    &&& ix.map_object is Some
    &&& ix.character is Some
    &&& ix.ai is Some
    &&& ix.map_cell is None
    &&& ix.item is None
    &&& ix.equipment is None
    &&& ix.ammo is None
    &&& ix.log_message is None
    &&& ix.dialog is None
}

/// The monster with indexes `ix` is made from the template `t`, alive.
pub open spec fn monster_from(w: WorldView, ix: Indexes, t: CharacterView) -> bool {
    let s = w.symbols[ix.symbol.unwrap() as int];
    &&& s.glyph == t.symbol.glyph
    &&& s.color == t.symbol.color
    &&& w.map_objects[ix.map_object.unwrap() as int] == t.map_object
    &&& w.characters[ix.character.unwrap() as int] == Character { alive: true, ..t.character }
    &&& w.ais[ix.ai.unwrap() as int] == AiOption { option: t.ai }
}

/// The entity with indexes `ix` is a monster made from a template that may
/// appear on `level`.
pub open spec fn spawned_monster(w: WorldView, ix: Indexes, cl: &CharactersLoader, level: int) -> bool {
    &&& monster_shape(ix)
    &&& exists|j: int|
        0 <= j < cl.char_vals@.len() && spec_weight_for_level(cl.char_vals@[j].1.spawn_chances@, level) > 0
            && #[trigger] monster_from(w, ix, cl.char_vals@[j].1@)
}

/// The indexes of an item lying on the map: drawn, named, an item, with
/// equipment or not, nothing else.
pub open spec fn item_shape(ix: Indexes) -> bool {
    &&& ix.symbol is Some
    &&& ix.map_object is Some
    &&& ix.item is Some
    &&& ix.map_cell is None
    &&& ix.character is None
    &&& ix.ai is None
    &&& ix.ammo is None
    &&& ix.log_message is None
    &&& ix.dialog is None
}

/// The item with indexes `ix` is made from the template `t`.
pub open spec fn item_from(w: WorldView, ix: Indexes, t: ItemView) -> bool {
    let s = w.symbols[ix.symbol.unwrap() as int];
    &&& s.glyph == t.symbol.glyph
    &&& s.color == t.symbol.color
    &&& w.map_objects[ix.map_object.unwrap() as int] == t.map_object
    &&& w.items[ix.item.unwrap() as int] == t.item
    &&& (ix.equipment is Some <==> t.equipment is Some)
    &&& (ix.equipment matches Some(k) ==> t.equipment == Some(w.equipments[k as int]))
}

/// The entity with indexes `ix` is an item made from a template that may
/// appear on `level`.
pub open spec fn spawned_item(w: WorldView, ix: Indexes, il: &ItemsLoader, level: int) -> bool {
    &&& item_shape(ix)
    &&& exists|j: int|
        0 <= j < il.item_vals@.len() && spec_weight_for_level(il.item_vals@[j].1.spawn_chances@, level) > 0
            && #[trigger] item_from(w, ix, il.item_vals@[j].1@)
}

/// A monster or an item made for `level`, standing on floor.
pub open spec fn placed_ok(w: WorldView, ix: Indexes, cl: &CharactersLoader, il: &ItemsLoader, level: int) -> bool {
    &&& on_floor(w, ix)
    &&& (spawned_monster(w, ix, cl, level) || spawned_item(w, ix, il, level))
}

/// Adding to a world keeps what is said of an entity in it.
pub proof fn lemma_placed_kept(
    w: WorldView,
    w2: WorldView,
    ix: Indexes,
    cl: &CharactersLoader,
    il: &ItemsLoader,
    level: int,
    room: Rect,
)
    requires
        w.indexes_wf(ix),
        components_kept(w, w2),
        w2.map == w.map,
    ensures
        placed_ok(w, ix, cl, il, level) ==> placed_ok(w2, ix, cl, il, level),
        spawned_monster(w, ix, cl, level) ==> spawned_monster(w2, ix, cl, level),
        spawned_item(w, ix, il, level) ==> spawned_item(w2, ix, il, level),
        in_room(w, ix, room) ==> in_room(w2, ix, room),
{
    if ix.symbol is Some {
        assert(w2.symbols[ix.symbol.unwrap() as int] == w.symbols.subrange(0, w.symbols.len() as int)[ix.symbol.unwrap() as int]);
    }
    if ix.map_object is Some {
        assert(w2.map_objects[ix.map_object.unwrap() as int] == w.map_objects.subrange(0, w.map_objects.len() as int)[ix.map_object.unwrap() as int]);
    }
    if ix.character is Some {
        assert(w2.characters[ix.character.unwrap() as int] == w.characters.subrange(0, w.characters.len() as int)[ix.character.unwrap() as int]);
    }
    if ix.ai is Some {
        assert(w2.ais[ix.ai.unwrap() as int] == w.ais.subrange(0, w.ais.len() as int)[ix.ai.unwrap() as int]);
    }
    if ix.item is Some {
        assert(w2.items[ix.item.unwrap() as int] == w.items.subrange(0, w.items.len() as int)[ix.item.unwrap() as int]);
    }
    if ix.equipment is Some {
        assert(w2.equipments[ix.equipment.unwrap() as int] == w.equipments.subrange(0, w.equipments.len() as int)[ix.equipment.unwrap() as int]);
    }
    if spawned_monster(w, ix, cl, level) {
        let j = choose|j: int|
            0 <= j < cl.char_vals@.len() && spec_weight_for_level(cl.char_vals@[j].1.spawn_chances@, level) > 0
                && #[trigger] monster_from(w, ix, cl.char_vals@[j].1@);
        assert(monster_from(w2, ix, cl.char_vals@[j].1@));
    }
    if spawned_item(w, ix, il, level) {
        let j = choose|j: int|
            0 <= j < il.item_vals@.len() && spec_weight_for_level(il.item_vals@[j].1.spawn_chances@, level) > 0
                && #[trigger] item_from(w, ix, il.item_vals@[j].1@);
        assert(item_from(w2, ix, il.item_vals@[j].1@));
    }
}

/// Storing an entity keeps everything already there.
pub proof fn lemma_stored_kept(w: WorldView, b: BuilderView)
    ensures
        components_kept(w, b.stored_in(w)),
        b.map_cell is None ==> b.stored_in(w).map == w.map,
        b.stored_in(w).player == w.player,
        b.stored_in(w).entities.len() == w.entities.len() + 1,
{
    let post = b.stored_in(w);
    assert(post.entities.subrange(0, w.entities.len() as int) =~= w.entities);
    assert(post.symbols.subrange(0, w.symbols.len() as int) =~= w.symbols);
    assert(post.map_objects.subrange(0, w.map_objects.len() as int) =~= w.map_objects);
    assert(post.characters.subrange(0, w.characters.len() as int) =~= w.characters);
    assert(post.ais.subrange(0, w.ais.len() as int) =~= w.ais);
    assert(post.items.subrange(0, w.items.len() as int) =~= w.items);
    assert(post.equipments.subrange(0, w.equipments.len() as int) =~= w.equipments);
    assert(post.ammos.subrange(0, w.ammos.len() as int) =~= w.ammos);
    assert(post.log.subrange(0, w.log.len() as int) =~= w.log);
    assert(post.dialogs.subrange(0, w.dialogs.len() as int) =~= w.dialogs);
}

pub proof fn lemma_kept_trans(a: WorldView, b: WorldView, c: WorldView)
    requires
        components_kept(a, b),
        components_kept(b, c),
    ensures
        components_kept(a, c),
{
    assert(c.entities.subrange(0, a.entities.len() as int) =~= b.entities.subrange(0, a.entities.len() as int));
    assert(c.symbols.subrange(0, a.symbols.len() as int) =~= b.symbols.subrange(0, a.symbols.len() as int));
    assert(c.map_objects.subrange(0, a.map_objects.len() as int) =~= b.map_objects.subrange(0, a.map_objects.len() as int));
    assert(c.characters.subrange(0, a.characters.len() as int) =~= b.characters.subrange(0, a.characters.len() as int));
    assert(c.ais.subrange(0, a.ais.len() as int) =~= b.ais.subrange(0, a.ais.len() as int));
    assert(c.items.subrange(0, a.items.len() as int) =~= b.items.subrange(0, a.items.len() as int));
    assert(c.equipments.subrange(0, a.equipments.len() as int) =~= b.equipments.subrange(0, a.equipments.len() as int));
    assert(c.ammos.subrange(0, a.ammos.len() as int) =~= b.ammos.subrange(0, a.ammos.len() as int));
    assert(c.log.subrange(0, a.log.len() as int) =~= b.log.subrange(0, a.log.len() as int));
    assert(c.dialogs.subrange(0, a.dialogs.len() as int) =~= b.dialogs.subrange(0, a.dialogs.len() as int));
}

/// The rectangle lies on the map and has an inside.
pub open spec fn room_ok(r: Rect) -> bool {
    &&& r.on_map()
    &&& r.x2 - r.x1 >= 2
    &&& r.y2 - r.y1 >= 2
}

/// What populating a level needs from the templates: distinct ids, weights
/// whose sums fit a `u32`, and for both kinds some template that may appear
/// on the level.
pub open spec fn loaders_ready(cl: &CharactersLoader, il: &ItemsLoader, level: int) -> bool {
    &&& ids_distinct(cl.ids())
    &&& ids_distinct(il.ids())
    &&& total_weight(char_weights(cl, level)) <= u32::MAX
    &&& total_weight(item_weights(il, level)) <= u32::MAX
    &&& some_weight(char_weights(cl, level))
    &&& some_weight(item_weights(il, level))
}

/// What a room's population leaves: the map and the player, everything that
/// was there, and only monsters and items made for the level, inside the
/// room on floor, at most 7 of them.
/// Each entity added from `pre` to `post` stands where nothing that blocks
/// the way stood when it was added.
pub open spec fn placed_unblocked(pre: WorldView, post: WorldView) -> bool {
    forall|i: int, j: int|
        #![trigger post.entities[i], post.entities[j]]
        pre.entities.len() <= i < post.entities.len() && 0 <= j < i ==> {
            let s = post.symbols[post.entities[i].1.symbol.unwrap() as int];
            !post.blocks_at(post.entities[j].1, s.x as int, s.y as int)
        }
}

/// Adding to a world keeps where an entity stands and whether it blocks.
pub proof fn lemma_blocks_kept(w: WorldView, w2: WorldView, ix: Indexes, x: int, y: int)
    requires
        w.indexes_wf(ix),
        components_kept(w, w2),
    ensures
        w2.blocks_at(ix, x, y) == w.blocks_at(ix, x, y),
        ix.symbol matches Some(k) ==> w2.symbols[k as int] == w.symbols[k as int],
{
    if ix.symbol is Some {
        assert(w2.symbols[ix.symbol.unwrap() as int] == w.symbols.subrange(0, w.symbols.len() as int)[ix.symbol.unwrap() as int]);
    }
    if ix.map_object is Some {
        assert(w2.map_objects[ix.map_object.unwrap() as int] == w.map_objects.subrange(0, w.map_objects.len() as int)[ix.map_object.unwrap() as int]);
    }
}

/// The most monsters a room gets, from each level on.
pub open spec fn monsters_per_room() -> Seq<Transition> {
    seq![Transition { level: 1, value: 2 }, Transition { level: 4, value: 3 }, Transition { level: 6, value: 5 }]
}

/// The most items a room gets, from each level on.
pub open spec fn items_per_room() -> Seq<Transition> {
    seq![Transition { level: 1, value: 1 }, Transition { level: 4, value: 2 }]
}

/// The entities added from `pre` to `post` are monsters up to `mid`, as many
/// as a room on `level` may get, then items, as many as a room may get.
pub open spec fn placed_split(
    pre: WorldView,
    post: WorldView,
    mid: int,
    cl: &CharactersLoader,
    il: &ItemsLoader,
    level: int,
) -> bool {
    &&& pre.entities.len() <= mid <= post.entities.len()
    &&& mid - pre.entities.len() <= spec_from_dungeon_level(monsters_per_room(), level)
    &&& post.entities.len() - mid <= spec_from_dungeon_level(items_per_room(), level)
    &&& forall|i: int| pre.entities.len() <= i < mid ==> spawned_monster(post, (#[trigger] post.entities[i]).1, cl, level)
    &&& forall|i: int| mid <= i < post.entities.len() ==> spawned_item(post, (#[trigger] post.entities[i]).1, il, level)
}

pub open spec fn objects_placed(
    pre: WorldView,
    post: WorldView,
    room: Rect,
    cl: &CharactersLoader,
    il: &ItemsLoader,
    level: int,
) -> bool {
    &&& post.map == pre.map
    &&& post.player == pre.player
    &&& post.must_be_destroyed == pre.must_be_destroyed
    &&& components_kept(pre, post)
    &&& post.entities.len() <= pre.entities.len() + 7
    &&& post.id_count == pre.id_count + (post.entities.len() - pre.entities.len())
    &&& forall|i: int|
        pre.entities.len() <= i < post.entities.len() ==> {
            let ix = (#[trigger] post.entities[i]).1;
            &&& in_room(post, ix, room)
            &&& placed_ok(post, ix, cl, il, level)
            &&& ix.symbol.unwrap() >= pre.symbols.len()
        }
    &&& exists|mid: int| #[trigger] placed_split(pre, post, mid, cl, il, level)
    &&& placed_unblocked(pre, post)
}

pub proof fn lemma_from_level_bound(table: Seq<Transition>, level: int, bound: int)
    requires
        forall|i: int| 0 <= i < table.len() ==> (#[trigger] table[i]).value <= bound,
        0 <= bound,
    ensures
        0 <= spec_from_dungeon_level(table, level) <= bound,
    decreases table.len(),
{
    if table.len() > 0 {
        lemma_from_level_bound(table.drop_last(), level, bound);
    }
}

/// A draw for a room: the cell inside the room a monster or an item goes to,
/// and the position of its template.
pub open spec fn draw_fits(room: Rect, d: (i32, i32, usize)) -> bool {
    room.inside(d.0 as int, d.1 as int)
}

/// What a room on `level` may be given: no more monsters and items than the
/// level allows, each on a cell inside the room, each made from a template
/// that may appear on the level.
pub open spec fn draws_ok(
    room: Rect,
    cl: &CharactersLoader,
    il: &ItemsLoader,
    level: int,
    monsters: Seq<(i32, i32, usize)>,
    items: Seq<(i32, i32, usize)>,
) -> bool {
    &&& monsters.len() <= spec_from_dungeon_level(monsters_per_room(), level)
    &&& items.len() <= spec_from_dungeon_level(items_per_room(), level)
    &&& forall|k: int|
        0 <= k < monsters.len() ==> {
            let d = #[trigger] monsters[k];
            &&& draw_fits(room, d)
            &&& d.2 < cl.char_vals@.len()
            &&& spec_weight_for_level(cl.char_vals@[d.2 as int].1.spawn_chances@, level) > 0
        }
    &&& forall|k: int|
        0 <= k < items.len() ==> {
            let d = #[trigger] items[k];
            &&& draw_fits(room, d)
            &&& d.2 < il.item_vals@.len()
            &&& spec_weight_for_level(il.item_vals@[d.2 as int].1.spawn_chances@, level) > 0
        }
}

/// A monster made from the template `t`, alive, at `(x, y)`.
pub open spec fn monster_builder(t: CharacterView, x: int, y: int) -> BuilderView {
    BuilderView {
        symbol: Some(Symbol { x: x as i32, y: y as i32, ..t.symbol }),
        map_object: Some(t.map_object),
        character: Some(Character { alive: true, ..t.character }),
        ai: Some(AiOption { option: t.ai }),
        ..BuilderView::empty()
    }
}

/// An item made from the template `t`, at `(x, y)`.
pub open spec fn item_builder(t: ItemView, x: int, y: int) -> BuilderView {
    BuilderView {
        symbol: Some(Symbol { x: x as i32, y: y as i32, ..t.symbol }),
        map_object: Some(t.map_object),
        item: Some(t.item),
        equipment: t.equipment,
        ..BuilderView::empty()
    }
}

/// `w` after the first `k` drawn monsters are put where nothing blocks.
pub open spec fn monsters_drawn(w: WorldView, cl: &CharactersLoader, monsters: Seq<(i32, i32, usize)>, k: int) -> WorldView
    decreases k,
{
    if k <= 0 {
        w
    } else {
        let prev = monsters_drawn(w, cl, monsters, k - 1);
        let d = monsters[k - 1];
        if prev.is_blocked(d.0 as int, d.1 as int) {
            prev
        } else {
            monster_builder(cl.char_vals@[d.2 as int].1@, d.0 as int, d.1 as int).stored_in(prev)
        }
    }
}

/// `w` after the first `k` drawn items are put where nothing blocks.
pub open spec fn items_drawn(w: WorldView, il: &ItemsLoader, items: Seq<(i32, i32, usize)>, k: int) -> WorldView
    decreases k,
{
    if k <= 0 {
        w
    } else {
        let prev = items_drawn(w, il, items, k - 1);
        let d = items[k - 1];
        if prev.is_blocked(d.0 as int, d.1 as int) {
            prev
        } else {
            item_builder(il.item_vals@[d.2 as int].1@, d.0 as int, d.1 as int).stored_in(prev)
        }
    }
}

/// `w` after the drawn monsters and then the drawn items are put in place.
pub open spec fn placed_drawn(
    w: WorldView,
    cl: &CharactersLoader,
    il: &ItemsLoader,
    monsters: Seq<(i32, i32, usize)>,
    items: Seq<(i32, i32, usize)>,
) -> WorldView {
    items_drawn(monsters_drawn(w, cl, monsters, monsters.len() as int), il, items, items.len() as int)
}

/// Puts the drawn monsters and then the drawn items in the room, in order:
/// each one made from the template at its position, on its cell, unless
/// something blocks the way there.
pub fn place_drawn(
    room: Rect,
    world: &mut World,
    char_loader: &CharactersLoader,
    items_loader: &ItemsLoader,
    level: u32,
    monsters: &Vec<(i32, i32, usize)>,
    items: &Vec<(i32, i32, usize)>,
)
    requires
        room_ok(room),
        old(world)@.wf(),
        old(world)@.map_ready(),
        old(world).id_count + monsters@.len() + items@.len() <= u32::MAX,
        ids_distinct(char_loader.ids()),
        ids_distinct(items_loader.ids()),
        draws_ok(room, char_loader, items_loader, level as int, monsters@, items@),
    ensures
        final(world)@.wf(),
        final(world)@ == placed_drawn(old(world)@, char_loader, items_loader, monsters@, items@),
        objects_placed(old(world)@, final(world)@, room, char_loader, items_loader, level as int),
{
    let ghost pre = world@;
    proof {
        lemma_from_level_bound(monsters_per_room(), level as int, 5);
        lemma_from_level_bound(items_per_room(), level as int, 2);
        lemma_stored_kept(pre, BuilderView::empty());
        assert(components_kept(pre, pre)) by {
            assert(pre.entities.subrange(0, pre.entities.len() as int) =~= pre.entities);
            assert(pre.symbols.subrange(0, pre.symbols.len() as int) =~= pre.symbols);
            assert(pre.map_objects.subrange(0, pre.map_objects.len() as int) =~= pre.map_objects);
            assert(pre.characters.subrange(0, pre.characters.len() as int) =~= pre.characters);
            assert(pre.ais.subrange(0, pre.ais.len() as int) =~= pre.ais);
            assert(pre.items.subrange(0, pre.items.len() as int) =~= pre.items);
            assert(pre.equipments.subrange(0, pre.equipments.len() as int) =~= pre.equipments);
            assert(pre.ammos.subrange(0, pre.ammos.len() as int) =~= pre.ammos);
            assert(pre.log.subrange(0, pre.log.len() as int) =~= pre.log);
            assert(pre.dialogs.subrange(0, pre.dialogs.len() as int) =~= pre.dialogs);
        }
    }
    let mut k: usize = 0;
    while k < monsters.len()
        invariant
            room_ok(room),
            pre.wf(),
            pre.map_ready(),
            pre.id_count + monsters@.len() + items@.len() <= u32::MAX,
            ids_distinct(char_loader.ids()),
            ids_distinct(items_loader.ids()),
            draws_ok(room, char_loader, items_loader, level as int, monsters@, items@),
            k <= monsters@.len(),
            world@ == monsters_drawn(pre, char_loader, monsters@, k as int),
            world@.wf(),
            world@.map == pre.map,
            world@.player == pre.player,
            world@.must_be_destroyed == pre.must_be_destroyed,
            components_kept(pre, world@),
            world@.entities.len() <= pre.entities.len() + k,
            world@.id_count == pre.id_count + (world@.entities.len() - pre.entities.len()),
            forall|i: int|
                pre.entities.len() <= i < world@.entities.len() ==> {
                    let ix = (#[trigger] world@.entities[i]).1;
                    &&& in_room(world@, ix, room)
                    &&& placed_ok(world@, ix, char_loader, items_loader, level as int)
                    &&& ix.symbol.unwrap() >= pre.symbols.len()
                },
            forall|i: int|
                pre.entities.len() <= i < world@.entities.len() ==> spawned_monster(
                    world@,
                    (#[trigger] world@.entities[i]).1,
                    char_loader,
                    level as int,
                ),
            placed_unblocked(pre, world@),
        decreases monsters@.len() - k,
    {
        let (x, y, choice) = monsters[k];
        proof {
            assert(draw_fits(room, monsters@[k as int]));
        }
        // only place it if the tile is not blocked
        if !is_blocked(x, y, world) {
            proof {
                crate::engine::asset::lemma_id_pos_distinct(char_loader.ids(), choice as int);
                assert(char_loader.ids()[choice as int] == char_loader.char_vals@[choice as int].0@);
            }
            let mut monster = char_loader.get_clone(char_loader.char_vals[choice].0.as_str());
            monster.character.alive = true;
            monster.symbol.x = x;
            monster.symbol.y = y;
            let ghost before = world@;
            proof {
                game::lemma_len_bounds(world);
            }
            let ghost t = char_loader.char_vals@[choice as int].1@;
            let ghost mv = monster@;
            proof {
                assert(mv.symbol.glyph == t.symbol.glyph && mv.symbol.color == t.symbol.color);
                assert(mv.map_object == t.map_object);
                assert(mv.character == Character { alive: true, ..t.character });
                assert(mv.ai == t.ai);
                assert(mv.symbol == Symbol { x: x, y: y, ..t.symbol });
            }
            let b = new_entity().add_symbol(monster.symbol).add_map_object(monster.map_object).add_character(
                monster.character,
            ).add_ai(AiOption { option: monster.ai });
            let ghost bv = b@;
            proof {
                assert(bv == monster_builder(t, x as int, y as int));
            }
            b.create(world);
            proof {
                lemma_stored_kept(before, bv);
                lemma_kept_trans(pre, before, world@);
                let post = world@;
                let nix = post.entities[post.entities.len() - 1].1;
                assert(nix == bv.indexes_in(before));
                assert(post.symbols[before.symbols.len() as int] == mv.symbol);
                assert(post.map_objects[before.map_objects.len() as int] == mv.map_object);
                assert(post.characters[before.characters.len() as int] == mv.character);
                assert(post.ais[before.ais.len() as int] == AiOption { option: mv.ai });
                assert(monster_from(post, nix, t));
                assert(spec_weight_for_level(char_loader.char_vals@[choice as int].1.spawn_chances@, level as int) > 0);
                assert(spawned_monster(post, nix, char_loader, level as int));
                assert(in_room(post, nix, room));
                assert forall|i: int| pre.entities.len() <= i < post.entities.len() implies {
                    let ix = (#[trigger] post.entities[i]).1;
                    &&& in_room(post, ix, room)
                    &&& placed_ok(post, ix, char_loader, items_loader, level as int)
                    &&& ix.symbol.unwrap() >= pre.symbols.len()
                } by {
                    if i < before.entities.len() {
                        assert(post.entities[i] == before.entities[i]);
                        assert(before.indexes_wf(before.entities[i].1));
                        lemma_placed_kept(before, post, before.entities[i].1, char_loader, items_loader, level as int, room);
                    }
                }
                assert forall|i: int| pre.entities.len() <= i < post.entities.len() implies spawned_monster(
                    post,
                    (#[trigger] post.entities[i]).1,
                    char_loader,
                    level as int,
                ) by {
                    if i < before.entities.len() {
                        assert(post.entities[i] == before.entities[i]);
                        assert(before.indexes_wf(before.entities[i].1));
                        lemma_placed_kept(before, post, before.entities[i].1, char_loader, items_loader, level as int, room);
                    }
                }
                assert forall|i: int, j: int|
                    #![trigger post.entities[i], post.entities[j]]
                    pre.entities.len() <= i < post.entities.len() && 0 <= j < i implies {
                    let s = post.symbols[post.entities[i].1.symbol.unwrap() as int];
                    !post.blocks_at(post.entities[j].1, s.x as int, s.y as int)
                } by {
                    let ixi = post.entities[i].1;
                    assert(post.entities[j] == before.entities[j]);
                    assert(before.indexes_wf(before.entities[j].1));
                    if i < before.entities.len() {
                        assert(post.entities[i] == before.entities[i]);
                        assert(before.indexes_wf(before.entities[i].1));
                        lemma_blocks_kept(before, post, before.entities[i].1, 0, 0);
                        let s = before.symbols[ixi.symbol.unwrap() as int];
                        assert(!before.blocks_at(before.entities[j].1, s.x as int, s.y as int));
                        lemma_blocks_kept(before, post, before.entities[j].1, s.x as int, s.y as int);
                    } else {
                        assert(!before.blocks_at(before.entities[j].1, x as int, y as int));
                        lemma_blocks_kept(before, post, before.entities[j].1, x as int, y as int);
                    }
                }
            }
        }
        k = k + 1;
    }
    let ghost mid = world@;
    let mut k: usize = 0;
    while k < items.len()
        invariant
            room_ok(room),
            pre.wf(),
            pre.map_ready(),
            pre.id_count + monsters@.len() + items@.len() <= u32::MAX,
            ids_distinct(char_loader.ids()),
            ids_distinct(items_loader.ids()),
            draws_ok(room, char_loader, items_loader, level as int, monsters@, items@),
            k <= items@.len(),
            mid == monsters_drawn(pre, char_loader, monsters@, monsters@.len() as int),
            world@ == items_drawn(mid, items_loader, items@, k as int),
            mid.entities.len() <= pre.entities.len() + monsters@.len(),
            mid.id_count == pre.id_count + (mid.entities.len() - pre.entities.len()),
            pre.entities.len() <= mid.entities.len() <= world@.entities.len(),
            mid.entities.len() - pre.entities.len() <= spec_from_dungeon_level(monsters_per_room(), level as int),
            world@.wf(),
            world@.map == pre.map,
            world@.player == pre.player,
            world@.must_be_destroyed == pre.must_be_destroyed,
            components_kept(pre, world@),
            world@.entities.len() <= mid.entities.len() + k,
            world@.id_count == pre.id_count + (world@.entities.len() - pre.entities.len()),
            forall|i: int|
                pre.entities.len() <= i < world@.entities.len() ==> {
                    let ix = (#[trigger] world@.entities[i]).1;
                    &&& in_room(world@, ix, room)
                    &&& placed_ok(world@, ix, char_loader, items_loader, level as int)
                    &&& ix.symbol.unwrap() >= pre.symbols.len()
                },
            forall|i: int|
                pre.entities.len() <= i < mid.entities.len() ==> spawned_monster(
                    world@,
                    (#[trigger] world@.entities[i]).1,
                    char_loader,
                    level as int,
                ),
            forall|i: int|
                mid.entities.len() <= i < world@.entities.len() ==> spawned_item(
                    world@,
                    (#[trigger] world@.entities[i]).1,
                    items_loader,
                    level as int,
                ),
            placed_unblocked(pre, world@),
        decreases items@.len() - k,
    {
        let (x, y, choice) = items[k];
        proof {
            assert(draw_fits(room, items@[k as int]));
        }
        // only place it if the tile is not blocked
        if !is_blocked(x, y, world) {
            proof {
                crate::engine::asset::lemma_id_pos_distinct(items_loader.ids(), choice as int);
                assert(items_loader.ids()[choice as int] == items_loader.item_vals@[choice as int].0@);
            }
            let mut item = items_loader.get_clone(items_loader.item_vals[choice].0.as_str());
            item.symbol.x = x;
            item.symbol.y = y;
            let ghost before = world@;
            proof {
                game::lemma_len_bounds(world);
            }
            let ghost t = items_loader.item_vals@[choice as int].1@;
            let ghost iv = item@;
            proof {
                assert(iv.symbol.glyph == t.symbol.glyph && iv.symbol.color == t.symbol.color);
                assert(iv.map_object == t.map_object);
                assert(iv.item == t.item);
                assert(iv.equipment == t.equipment);
                assert(iv.symbol == Symbol { x: x, y: y, ..t.symbol });
            }
            let b = new_entity().add_symbol(item.symbol).add_map_object(item.map_object).add_item(item.item).add_equipment(
                item.equipment,
            );
            let ghost bv = b@;
            proof {
                assert(bv == item_builder(t, x as int, y as int));
            }
            b.create(world);
            proof {
                lemma_stored_kept(before, bv);
                lemma_kept_trans(pre, before, world@);
                let post = world@;
                let nix = post.entities[post.entities.len() - 1].1;
                assert(nix == bv.indexes_in(before));
                assert(post.symbols[before.symbols.len() as int] == iv.symbol);
                assert(post.map_objects[before.map_objects.len() as int] == iv.map_object);
                assert(post.items[before.items.len() as int] == iv.item);
                assert(item_from(post, nix, t));
                assert(spec_weight_for_level(items_loader.item_vals@[choice as int].1.spawn_chances@, level as int) > 0);
                assert(spawned_item(post, nix, items_loader, level as int));
                assert(in_room(post, nix, room));
                assert forall|i: int| pre.entities.len() <= i < post.entities.len() implies {
                    let ix = (#[trigger] post.entities[i]).1;
                    &&& in_room(post, ix, room)
                    &&& placed_ok(post, ix, char_loader, items_loader, level as int)
                    &&& ix.symbol.unwrap() >= pre.symbols.len()
                } by {
                    if i < before.entities.len() {
                        assert(post.entities[i] == before.entities[i]);
                        assert(before.indexes_wf(before.entities[i].1));
                        lemma_placed_kept(before, post, before.entities[i].1, char_loader, items_loader, level as int, room);
                    }
                }
                assert forall|i: int| pre.entities.len() <= i < mid.entities.len() implies spawned_monster(
                    post,
                    (#[trigger] post.entities[i]).1,
                    char_loader,
                    level as int,
                ) by {
                    assert(post.entities[i] == before.entities[i]);
                    assert(before.indexes_wf(before.entities[i].1));
                    lemma_placed_kept(before, post, before.entities[i].1, char_loader, items_loader, level as int, room);
                }
                assert forall|i: int| mid.entities.len() <= i < post.entities.len() implies spawned_item(
                    post,
                    (#[trigger] post.entities[i]).1,
                    items_loader,
                    level as int,
                ) by {
                    if i < before.entities.len() {
                        assert(post.entities[i] == before.entities[i]);
                        assert(before.indexes_wf(before.entities[i].1));
                        lemma_placed_kept(before, post, before.entities[i].1, char_loader, items_loader, level as int, room);
                    }
                }
                assert forall|i: int, j: int|
                    #![trigger post.entities[i], post.entities[j]]
                    pre.entities.len() <= i < post.entities.len() && 0 <= j < i implies {
                    let s = post.symbols[post.entities[i].1.symbol.unwrap() as int];
                    !post.blocks_at(post.entities[j].1, s.x as int, s.y as int)
                } by {
                    let ixi = post.entities[i].1;
                    assert(post.entities[j] == before.entities[j]);
                    assert(before.indexes_wf(before.entities[j].1));
                    if i < before.entities.len() {
                        assert(post.entities[i] == before.entities[i]);
                        assert(before.indexes_wf(before.entities[i].1));
                        lemma_blocks_kept(before, post, before.entities[i].1, 0, 0);
                        let s = before.symbols[ixi.symbol.unwrap() as int];
                        assert(!before.blocks_at(before.entities[j].1, s.x as int, s.y as int));
                        lemma_blocks_kept(before, post, before.entities[j].1, s.x as int, s.y as int);
                    } else {
                        assert(!before.blocks_at(before.entities[j].1, x as int, y as int));
                        lemma_blocks_kept(before, post, before.entities[j].1, x as int, y as int);
                    }
                }
            }
        }
        k = k + 1;
    }
    proof {
        assert(placed_split(pre, world@, mid.entities.len() as int, char_loader, items_loader, level as int));
    }
}


/// Puts a random number of monsters and items, picked by their weights on
/// `level`, on random cells inside the room: the draws of `draw_objects`,
/// put there by `place_drawn` unless something blocks the way.
pub fn place_objects(
    room: Rect,
    world: &mut World,
    char_loader: &CharactersLoader,
    items_loader: &ItemsLoader,
    level: u32,
)
    requires
        room_ok(room),
        old(world)@.wf(),
        old(world)@.map_ready(),
        old(world).id_count + 7 <= u32::MAX,
        loaders_ready(char_loader, items_loader, level as int),
    ensures
        final(world)@.wf(),
        objects_placed(old(world)@, final(world)@, room, char_loader, items_loader, level as int),
        exists|monsters: Seq<(i32, i32, usize)>, items: Seq<(i32, i32, usize)>|
            #[trigger] draws_ok(room, char_loader, items_loader, level as int, monsters, items) && final(world)@
                == placed_drawn(old(world)@, char_loader, items_loader, monsters, items),
{
    let (monsters, items) = draw_objects(room, char_loader, items_loader, level);
    proof {
        lemma_from_level_bound(monsters_per_room(), level as int, 5);
        lemma_from_level_bound(items_per_room(), level as int, 2);
    }
    place_drawn(room, world, char_loader, items_loader, level, &monsters, &items);
}

/// Draws the monsters and items of a room: as many monsters as a number
/// drawn from 0 to the level's limit, then likewise for items; each with a
/// cell drawn inside the room and a template drawn by the level's weights.
pub fn draw_objects(
    room: Rect,
    char_loader: &CharactersLoader,
    items_loader: &ItemsLoader,
    level: u32,
) -> (r: (Vec<(i32, i32, usize)>, Vec<(i32, i32, usize)>))
    requires
        room_ok(room),
        loaders_ready(char_loader, items_loader, level as int),
    ensures
        draws_ok(room, char_loader, items_loader, level as int, r.0@, r.1@),
{
    // maximum number of monsters per room
    let monster_table = vec![
        Transition { level: 1, value: 2 },
        Transition { level: 4, value: 3 },
        Transition { level: 6, value: 5 },
    ];
    let max_monsters = from_dungeon_level(monster_table.as_slice(), level);
    proof {
        assert(monster_table@ =~= monsters_per_room());
        lemma_from_level_bound(monster_table@, level as int, 5);
    }
    // choose random number of monsters
    let num_monsters = crate::rng::gen_range(0, max_monsters as i32 + 1);
    // monster random table
    let (monster_ids, monster_chances) = char_loader.weighted_table(level);
    proof {
        assert forall|i: int| 0 <= i < monster_chances@.len() implies monster_chances@[i] == char_weights(
            char_loader,
            level as int,
        )[i] by {
            crate::engine::asset::lemma_weight_bound(char_loader.char_vals@[i].1.spawn_chances@, level as int);
            assert(monster_ids@[i]@ == char_loader.char_vals@[i].0@);
            assert(char_weights(char_loader, level as int)[i] == spec_weight_for_level(
                char_loader.char_vals@[i].1.spawn_chances@,
                level as int,
            ) as u32);
        }
        assert(monster_chances@ =~= char_weights(char_loader, level as int));
    }
    let monster_choice = match crate::rng::weighted_index(&monster_chances) {
        Ok(d) => d,
        Err(_) => {
            proof {
                assert(false);
            }
            return (Vec::new(), Vec::new());
        },
    };
    let mut monsters: Vec<(i32, i32, usize)> = Vec::new();
    let mut k: i32 = 0;
    while k < num_monsters
        invariant
            room_ok(room),
            0 <= k <= num_monsters,
            num_monsters <= max_monsters,
            max_monsters == spec_from_dungeon_level(monsters_per_room(), level as int),
            monster_chances@ == char_weights(char_loader, level as int),
            crate::rng::index_weights(monster_choice) == monster_chances@,
            monsters@.len() == k,
            forall|j: int|
                0 <= j < monsters@.len() ==> {
                    let d = #[trigger] monsters@[j];
                    &&& draw_fits(room, d)
                    &&& d.2 < char_loader.char_vals@.len()
                    &&& spec_weight_for_level(char_loader.char_vals@[d.2 as int].1.spawn_chances@, level as int) > 0
                },
        decreases num_monsters - k,
    {
        // choose random spot for this monster
        let x = crate::rng::gen_range(room.x1 + 1, room.x2);
        let y = crate::rng::gen_range(room.y1 + 1, room.y2);
        let choice = crate::rng::weighted_sample(&monster_choice);
        proof {
            crate::engine::asset::lemma_weight_bound(char_loader.char_vals@[choice as int].1.spawn_chances@, level as int);
            assert(char_weights(char_loader, level as int)[choice as int] > 0);
        }
        monsters.push((x, y, choice));
        k = k + 1;
    }
    // maximum number of items per room
    let item_table = vec![Transition { level: 1, value: 1 }, Transition { level: 4, value: 2 }];
    let max_items = from_dungeon_level(item_table.as_slice(), level);
    proof {
        assert(item_table@ =~= items_per_room());
        lemma_from_level_bound(item_table@, level as int, 2);
    }
    // choose random number of items
    let num_items = crate::rng::gen_range(0, max_items as i32 + 1);
    let (item_ids, item_chances) = items_loader.weighted_table(level);
    proof {
        assert forall|i: int| 0 <= i < item_chances@.len() implies item_chances@[i] == item_weights(
            items_loader,
            level as int,
        )[i] by {
            crate::engine::asset::lemma_weight_bound(items_loader.item_vals@[i].1.spawn_chances@, level as int);
            assert(item_ids@[i]@ == items_loader.item_vals@[i].0@);
            assert(item_weights(items_loader, level as int)[i] == spec_weight_for_level(
                items_loader.item_vals@[i].1.spawn_chances@,
                level as int,
            ) as u32);
        }
        assert(item_chances@ =~= item_weights(items_loader, level as int));
    }
    let item_choice = match crate::rng::weighted_index(&item_chances) {
        Ok(d) => d,
        Err(_) => {
            proof {
                assert(false);
            }
            return (Vec::new(), Vec::new());
        },
    };
    let mut items: Vec<(i32, i32, usize)> = Vec::new();
    let mut k: i32 = 0;
    while k < num_items
        invariant
            room_ok(room),
            0 <= k <= num_items,
            num_items <= max_items,
            max_items == spec_from_dungeon_level(items_per_room(), level as int),
            item_chances@ == item_weights(items_loader, level as int),
            crate::rng::index_weights(item_choice) == item_chances@,
            items@.len() == k,
            forall|j: int|
                0 <= j < items@.len() ==> {
                    let d = #[trigger] items@[j];
                    &&& draw_fits(room, d)
                    &&& d.2 < items_loader.item_vals@.len()
                    &&& spec_weight_for_level(items_loader.item_vals@[d.2 as int].1.spawn_chances@, level as int) > 0
                },
        decreases num_items - k,
    {
        // choose random spot for this item
        let x = crate::rng::gen_range(room.x1 + 1, room.x2);
        let y = crate::rng::gen_range(room.y1 + 1, room.y2);
        let choice = crate::rng::weighted_sample(&item_choice);
        proof {
            crate::engine::asset::lemma_weight_bound(items_loader.item_vals@[choice as int].1.spawn_chances@, level as int);
            assert(item_weights(items_loader, level as int)[choice as int] > 0);
        }
        items.push((x, y, choice));
        k = k + 1;
    }
    proof {
        assert(draws_ok(room, char_loader, items_loader, level as int, monsters@, items@));
    }
    (monsters, items)
}

/// `(x, y)` is on the edge of the map.
pub open spec fn on_border(x: int, y: int) -> bool {
    &&& in_map(x, y)
    &&& (x == 0 || x == cfg::MAP_WIDTH - 1 || y == 0 || y == cfg::MAP_HEIGHT - 1)
}

/// The edge of the map is rock all around.
pub open spec fn border_walls(map: Seq<MapCell>) -> bool {
    forall|x: int, y: int| on_border(x, y) ==> #[trigger] map[map_index(x, y)].block
}

/// The cell at `(x, y)` is free of rock.
pub open spec fn floor_at(map: Seq<MapCell>, x: int, y: int) -> bool {
    !map[map_index(x, y)].block
}

/// Clearing cells keeps floor as floor, makes the area floor, and leaves the
/// rest as it was.
pub proof fn lemma_opened_cells(map: Seq<MapCell>, area: spec_fn(int, int) -> bool, x: int, y: int)
    requires
        map.len() == map_size(),
        0 <= map_index(x, y) < map_size(),
    ensures
        floor_at(map, x, y) ==> floor_at(opened(map, area), x, y),
        in_map(x, y) && area(x, y) ==> floor_at(opened(map, area), x, y),
        in_map(x, y) && !area(x, y) ==> opened(map, area)[map_index(x, y)] == map[map_index(x, y)],
{
    if in_map(x, y) {
        lemma_cell_position(x, y);
    }
}

/// Clearing cells away from the edge keeps the edge rock.
pub proof fn lemma_opened_border(map: Seq<MapCell>, area: spec_fn(int, int) -> bool)
    requires
        map.len() == map_size(),
        border_walls(map),
        forall|x: int, y: int| on_border(x, y) ==> !area(x, y),
    ensures
        border_walls(opened(map, area)),
{
    assert forall|x: int, y: int| on_border(x, y) implies #[trigger] opened(map, area)[map_index(x, y)].block by {
        lemma_opened_cells(map, area, x, y);
        assert(map[map_index(x, y)].block);
    }
}

/// The monsters and items added since `pre` are made for the level, stand on
/// floor, and are drawn with symbols added since `pre`.
pub open spec fn added_ok(pre: WorldView, w: WorldView, cl: &CharactersLoader, il: &ItemsLoader, level: int) -> bool {
    forall|i: int|
        pre.entities.len() <= i < w.entities.len() ==> {
            let ix = (#[trigger] w.entities[i]).1;
            (ix.character is Some || ix.item is Some) ==> {
                &&& placed_ok(w, ix, cl, il, level)
                &&& ix.symbol.unwrap() >= pre.symbols.len()
            }
        }
}

/// Clearing cells keeps what is said of the monsters and items added.
pub proof fn lemma_added_opened(
    pre: WorldView,
    w: WorldView,
    area: spec_fn(int, int) -> bool,
    cl: &CharactersLoader,
    il: &ItemsLoader,
    level: int,
)
    requires
        w.wf(),
        w.map.len() == map_size(),
        added_ok(pre, w, cl, il, level),
    ensures
        added_ok(pre, (WorldView { map: opened(w.map, area), ..w }), cl, il, level),
        (WorldView { map: opened(w.map, area), ..w }).wf(),
{
    let w2 = WorldView { map: opened(w.map, area), ..w };
    assert forall|i: int| pre.entities.len() <= i < w2.entities.len() implies {
        let ix = (#[trigger] w2.entities[i]).1;
        (ix.character is Some || ix.item is Some) ==> {
            &&& placed_ok(w2, ix, cl, il, level)
            &&& ix.symbol.unwrap() >= pre.symbols.len()
        }
    } by {
        let ix = w.entities[i].1;
        if ix.character is Some || ix.item is Some {
            assert(w.indexes_wf(ix));
            let s = w.symbols[ix.symbol.unwrap() as int];
            w.lemma_symbol_on_grid(ix.symbol.unwrap() as int);
            lemma_opened_cells(w.map, area, s.x as int, s.y as int);
            if spawned_monster(w, ix, cl, level) {
                let j = choose|j: int|
                    0 <= j < cl.char_vals@.len() && spec_weight_for_level(cl.char_vals@[j].1.spawn_chances@, level) > 0
                        && #[trigger] monster_from(w, ix, cl.char_vals@[j].1@);
                assert(monster_from(w2, ix, cl.char_vals@[j].1@));
            } else {
                let j = choose|j: int|
                    0 <= j < il.item_vals@.len() && spec_weight_for_level(il.item_vals@[j].1.spawn_chances@, level) > 0
                        && #[trigger] item_from(w, ix, il.item_vals@[j].1@);
                assert(item_from(w2, ix, il.item_vals@[j].1@));
            }
        }
    }
    assert forall|i: int| 0 <= i < w2.entities.len() implies w2.indexes_wf(#[trigger] w2.entities[i].1) by {
        assert(w.indexes_wf(w.entities[i].1));
    }
}

/// Moving the symbol at `k` (one that was there before `pre`'s additions)
/// keeps what is said of the monsters and items added.
pub proof fn lemma_added_moved(
    pre: WorldView,
    w: WorldView,
    k: int,
    s: Symbol,
    cl: &CharactersLoader,
    il: &ItemsLoader,
    level: int,
)
    requires
        w.wf(),
        0 <= k < pre.symbols.len(),
        k < w.symbols.len(),
        in_map(s.x as int, s.y as int),
        added_ok(pre, w, cl, il, level),
    ensures
        added_ok(pre, (WorldView { symbols: w.symbols.update(k, s), ..w }), cl, il, level),
        (WorldView { symbols: w.symbols.update(k, s), ..w }).wf(),
{
    let w2 = WorldView { symbols: w.symbols.update(k, s), ..w };
    assert forall|i: int| pre.entities.len() <= i < w2.entities.len() implies {
        let ix = (#[trigger] w2.entities[i]).1;
        (ix.character is Some || ix.item is Some) ==> {
            &&& placed_ok(w2, ix, cl, il, level)
            &&& ix.symbol.unwrap() >= pre.symbols.len()
        }
    } by {
        let ix = w.entities[i].1;
        if ix.character is Some || ix.item is Some {
            assert(w.indexes_wf(ix));
            assert(w2.symbols[ix.symbol.unwrap() as int] == w.symbols[ix.symbol.unwrap() as int]);
            if spawned_monster(w, ix, cl, level) {
                let j = choose|j: int|
                    0 <= j < cl.char_vals@.len() && spec_weight_for_level(cl.char_vals@[j].1.spawn_chances@, level) > 0
                        && #[trigger] monster_from(w, ix, cl.char_vals@[j].1@);
                assert(monster_from(w2, ix, cl.char_vals@[j].1@));
            } else {
                let j = choose|j: int|
                    0 <= j < il.item_vals@.len() && spec_weight_for_level(il.item_vals@[j].1.spawn_chances@, level) > 0
                        && #[trigger] item_from(w, ix, il.item_vals@[j].1@);
                assert(item_from(w2, ix, il.item_vals@[j].1@));
            }
        }
    }
    assert forall|i: int| 0 <= i < w2.entities.len() implies w2.indexes_wf(#[trigger] w2.entities[i].1) by {
        assert(w.indexes_wf(w.entities[i].1));
    }
    assert forall|i: int| 0 <= i < w2.symbols.len() implies on_grid(
        #[trigger] w2.symbols[i].x as int,
        w2.symbols[i].y as int,
    ) by {
        if i != k {
            assert(on_grid(w.symbols[i].x as int, w.symbols[i].y as int));
        }
    }
}

/// Storing an entity that is neither a character nor an item keeps what is
/// said of the monsters and items added.
pub proof fn lemma_added_stored(
    pre: WorldView,
    w: WorldView,
    b: BuilderView,
    cl: &CharactersLoader,
    il: &ItemsLoader,
    level: int,
)
    requires
        w.wf(),
        b.map_cell is None,
        b.character is None,
        b.item is None,
        added_ok(pre, w, cl, il, level),
    ensures
        added_ok(pre, b.stored_in(w), cl, il, level),
{
    let w2 = b.stored_in(w);
    lemma_stored_kept(w, b);
    assert forall|i: int| pre.entities.len() <= i < w2.entities.len() implies {
        let ix = (#[trigger] w2.entities[i]).1;
        (ix.character is Some || ix.item is Some) ==> {
            &&& placed_ok(w2, ix, cl, il, level)
            &&& ix.symbol.unwrap() >= pre.symbols.len()
        }
    } by {
        if i < w.entities.len() {
            assert(w2.entities[i] == w.entities[i]);
            assert(w.indexes_wf(w.entities[i].1));
            lemma_placed_kept(w, w2, w.entities[i].1, cl, il, level, Rect { x1: 0, y1: 0, x2: 0, y2: 0 });
        }
    }
}

/// Symbols other than the one at `k` are kept, and everything else only grew.
pub open spec fn level_kept(pre: WorldView, post: WorldView, k: int) -> bool {
    &&& grown(pre.entities, post.entities)
    &&& pre.symbols.len() <= post.symbols.len()
    &&& forall|i: int| 0 <= i < pre.symbols.len() && i != k ==> #[trigger] post.symbols[i] == pre.symbols[i]
    &&& grown(pre.map_objects, post.map_objects)
    &&& grown(pre.characters, post.characters)
    &&& grown(pre.ais, post.ais)
    &&& grown(pre.items, post.items)
    &&& grown(pre.equipments, post.equipments)
    &&& grown(pre.ammos, post.ammos)
    &&& grown(pre.log, post.log)
    &&& grown(pre.dialogs, post.dialogs)
}

pub proof fn lemma_level_kept_then(pre: WorldView, mid: WorldView, post: WorldView, k: int)
    requires
        level_kept(pre, mid, k),
        components_kept(mid, post),
    ensures
        level_kept(pre, post, k),
{
    assert(post.entities.subrange(0, pre.entities.len() as int) =~= mid.entities.subrange(0, pre.entities.len() as int));
    assert forall|i: int| 0 <= i < pre.symbols.len() && i != k implies #[trigger] post.symbols[i] == pre.symbols[i] by {
        assert(post.symbols.subrange(0, mid.symbols.len() as int)[i] == mid.symbols[i]);
    }
    assert(post.map_objects.subrange(0, pre.map_objects.len() as int) =~= mid.map_objects.subrange(0, pre.map_objects.len() as int));
    assert(post.characters.subrange(0, pre.characters.len() as int) =~= mid.characters.subrange(0, pre.characters.len() as int));
    assert(post.ais.subrange(0, pre.ais.len() as int) =~= mid.ais.subrange(0, pre.ais.len() as int));
    assert(post.items.subrange(0, pre.items.len() as int) =~= mid.items.subrange(0, pre.items.len() as int));
    assert(post.equipments.subrange(0, pre.equipments.len() as int) =~= mid.equipments.subrange(0, pre.equipments.len() as int));
    assert(post.ammos.subrange(0, pre.ammos.len() as int) =~= mid.ammos.subrange(0, pre.ammos.len() as int));
    assert(post.log.subrange(0, pre.log.len() as int) =~= mid.log.subrange(0, pre.log.len() as int));
    assert(post.dialogs.subrange(0, pre.dialogs.len() as int) =~= mid.dialogs.subrange(0, pre.dialogs.len() as int));
}

/// Every cell of a level is rock before the rooms are carved.
pub proof fn lemma_all_walls(w: WorldView)
    requires
        w.map.len() == 0,
        w.id_count + map_size() <= u32::MAX,
    ensures
        walls_added(w, map_size()).map.len() == map_size(),
        border_walls(walls_added(w, map_size()).map),
{
    lemma_walls_added(w, map_size());
    let m = walls_added(w, map_size()).map;
    assert(m =~= Seq::new(map_size() as nat, |i: int| wall_cell()));
    assert forall|x: int, y: int| on_border(x, y) implies #[trigger] m[map_index(x, y)].block by {
        assert(0 <= map_index(x, y) < map_size());
    }
}

pub proof fn lemma_hints_wf(w: WorldView, marks: Seq<(int, int, char)>, n: int)
    requires
        0 <= n <= marks.len(),
        w.wf(),
        w.id_count + n <= u32::MAX,
        forall|j: int| 0 <= j < marks.len() ==> in_map((#[trigger] marks[j]).0, marks[j].1),
    ensures
        hints_added(w, marks, n).wf(),
        hints_added(w, marks, n).id_count == w.id_count + n,
    decreases n,
{
    if n > 0 {
        lemma_hints_wf(w, marks, n - 1);
        let m = marks[n - 1];
        assert(in_map(m.0, m.1));
        crate::engine::entity::lemma_stored_wf(hint_builder(m), hints_added(w, marks, n - 1));
    }
}

pub proof fn lemma_hints_kept(w: WorldView, marks: Seq<(int, int, char)>, n: int)
    requires
        0 <= n <= marks.len(),
    ensures
        components_kept(w, hints_added(w, marks, n)),
        hints_added(w, marks, n).map == w.map,
        hints_added(w, marks, n).player == w.player,
        hints_added(w, marks, n).must_be_destroyed == w.must_be_destroyed,
    decreases n,
{
    if n <= 0 {
        lemma_kept_refl(w);
    } else {
        lemma_hints_kept(w, marks, n - 1);
        let prev = hints_added(w, marks, n - 1);
        lemma_stored_kept(prev, hint_builder(marks[n - 1]));
        lemma_kept_trans(w, prev, hints_added(w, marks, n));
    }
}

pub proof fn lemma_kept_refl(w: WorldView)
    ensures
        components_kept(w, w),
{
    assert(w.entities.subrange(0, w.entities.len() as int) =~= w.entities);
    assert(w.symbols.subrange(0, w.symbols.len() as int) =~= w.symbols);
    assert(w.map_objects.subrange(0, w.map_objects.len() as int) =~= w.map_objects);
    assert(w.characters.subrange(0, w.characters.len() as int) =~= w.characters);
    assert(w.ais.subrange(0, w.ais.len() as int) =~= w.ais);
    assert(w.items.subrange(0, w.items.len() as int) =~= w.items);
    assert(w.equipments.subrange(0, w.equipments.len() as int) =~= w.equipments);
    assert(w.ammos.subrange(0, w.ammos.len() as int) =~= w.ammos);
    assert(w.log.subrange(0, w.log.len() as int) =~= w.log);
    assert(w.dialogs.subrange(0, w.dialogs.len() as int) =~= w.dialogs);
}

pub proof fn lemma_level_kept_start(pre: WorldView, w: WorldView, k: int)
    requires
        components_kept(pre, w),
    ensures
        level_kept(pre, w, k),
{
    assert forall|i: int| 0 <= i < pre.symbols.len() && i != k implies #[trigger] w.symbols[i] == pre.symbols[i] by {
        assert(w.symbols.subrange(0, pre.symbols.len() as int)[i] == w.symbols[i]);
    }
}

/// The first level's room of hints keeps what holds of a level being built.
pub proof fn lemma_hints_level(
    pre: WorldView,
    w: WorldView,
    x: int,
    y: int,
    cl: &CharactersLoader,
    il: &ItemsLoader,
    level: int,
)
    requires
        w.wf(),
        w.map.len() == map_size(),
        border_walls(w.map),
        0 <= x < cfg::MAP_WIDTH - 6,
        0 <= y < cfg::MAP_HEIGHT - 6,
        w.is_character(w.player.id),
        w.ix(w.player.id).symbol.unwrap() < pre.symbols.len(),
        added_ok(pre, w, cl, il, level),
        w.id_count + 8 <= u32::MAX,
    ensures
        ({
            let post = hints_placed(w, x, y);
            let k = w.ix(w.player.id).symbol.unwrap() as int;
            &&& post.map.len() == map_size()
            &&& border_walls(post.map)
            &&& added_ok(pre, post, cl, il, level)
            &&& post.wf()
            &&& post.player == w.player
            &&& post.must_be_destroyed == w.must_be_destroyed
            &&& post.symbols[k] == Symbol { x: (x + 3) as i32, y: (y + 3) as i32, ..w.symbols[k] }
            &&& floor_at(post.map, x + 3, y + 3)
            &&& floor_at(post.map, (x + x + 6) / 2, (y + y + 6) / 2)
            &&& rooms_open(post.map, seq![Rect { x1: x as i32, y1: y as i32, x2: (x + 6) as i32, y2: (y + 6) as i32 }])
            &&& post.entities.len() == w.entities.len() + 8
            &&& post.id_count == w.id_count + 8
            &&& components_kept(w, WorldView { symbols: w.symbols, ..post })
            &&& post.symbols.len() == w.symbols.len() + 8
            &&& forall|i: int| 0 <= i < w.symbols.len() && i != k ==> #[trigger] post.symbols[i] == w.symbols[i]
        }),
{
    let room = Rect { x1: x as i32, y1: y as i32, x2: (x + 6) as i32, y2: (y + 6) as i32 };
    let area = room_area(room);
    let w1 = WorldView { map: opened(w.map, area), ..w };
    lemma_added_opened(pre, w, area, cl, il, level);
    lemma_opened_border(w.map, area);
    lemma_opened_cells(w.map, area, x + 3, y + 3);
    assert(rooms_open(w.map, Seq::<Rect>::empty()));
    lemma_room_opened(w.map, Seq::<Rect>::empty(), room);
    assert(Seq::<Rect>::empty().push(room) =~= seq![room]);
    let marks = hint_marks(x, y);
    let w2 = hints_added(w1, marks, 8);
    lemma_hints_added(w1, marks, 8);
    lemma_hints_kept(w1, marks, 8);
    lemma_hints_wf(w1, marks, 8);
    w.lemma_wf_indexes(w.player.id);
    let k = w.ix(w.player.id).symbol.unwrap() as int;
    assert(added_ok(pre, w2, cl, il, level)) by {
        assert forall|i: int| pre.entities.len() <= i < w2.entities.len() implies {
            let ix = (#[trigger] w2.entities[i]).1;
            (ix.character is Some || ix.item is Some) ==> {
                &&& placed_ok(w2, ix, cl, il, level)
                &&& ix.symbol.unwrap() >= pre.symbols.len()
            }
        } by {
            if i < w1.entities.len() {
                assert(w2.entities[i] == w2.entities.subrange(0, w1.entities.len() as int)[i]);
                assert(w1.indexes_wf(w1.entities[i].1));
                lemma_placed_kept(w1, w2, w1.entities[i].1, cl, il, level, room);
            }
        }
    }
    assert(w2.wf());
    assert(w2.symbols[k] == w.symbols[k]) by {
        assert(w2.symbols.subrange(0, w.symbols.len() as int)[k] == w2.symbols[k]);
    }
    lemma_added_moved(pre, w2, k, Symbol { x: (x + 3) as i32, y: (y + 3) as i32, ..w2.symbols[k] }, cl, il, level);
    let post = hints_placed(w, x, y);
    assert(post == WorldView { symbols: w2.symbols.update(k, Symbol { x: (x + 3) as i32, y: (y + 3) as i32, ..w2.symbols[k] }), ..w2 });
    assert forall|i: int| 0 <= i < w.symbols.len() && i != k implies #[trigger] post.symbols[i] == w.symbols[i] by {
        assert(w2.symbols.subrange(0, w.symbols.len() as int)[i] == w2.symbols[i]);
    }
    assert(components_kept(w, WorldView { symbols: w.symbols, ..post })) by {
        assert(w.symbols.subrange(0, w.symbols.len() as int) =~= w.symbols);
        assert(grown(w1.entities, w2.entities));
        assert(grown(w1.map_objects, w2.map_objects));
    }
}

/// How many ids building a level may take.
pub const LEVEL_IDS: u32 = 0x1000;

/// The insides of the rooms are free of rock.
pub open spec fn rooms_open(map: Seq<MapCell>, rooms: Seq<Rect>) -> bool {
    forall|j: int, x: int, y: int|
        #![trigger rooms[j], floor_at(map, x, y)]
        0 <= j < rooms.len() && rooms[j].inside(x, y) ==> floor_at(map, x, y)
}

/// The room is between `ROOM_MIN_SIZE` and `ROOM_MAX_SIZE` cells wide and
/// high, its walls included.
pub open spec fn room_sized(r: Rect) -> bool {
    &&& cfg::ROOM_MIN_SIZE <= r.x2 - r.x1 <= cfg::ROOM_MAX_SIZE
    &&& cfg::ROOM_MIN_SIZE <= r.y2 - r.y1 <= cfg::ROOM_MAX_SIZE
}

/// No two rooms overlap or touch.
pub open spec fn rooms_apart(rooms: Seq<Rect>) -> bool {
    forall|i: int, j: int| 0 <= i < j < rooms.len() ==> !(#[trigger] rooms[i]).spec_intersects_with(#[trigger] rooms[j])
}

/// Every cell of `area` on the map is free of rock.
pub open spec fn area_open(map: Seq<MapCell>, area: spec_fn(int, int) -> bool) -> bool {
    forall|x: int, y: int| in_map(x, y) && area(x, y) ==> #[trigger] floor_at(map, x, y)
}

/// A tunnel leads from the middle of `a` to the middle of `b`: along a row and
/// then along a column, or along a column and then along a row.
pub open spec fn joined(map: Seq<MapCell>, a: Rect, b: Rect) -> bool {
    let (ax, ay) = a.spec_center();
    let (bx, by) = b.spec_center();
    ||| area_open(map, h_area(ax, bx, ay)) && area_open(map, v_area(ay, by, bx))
    ||| area_open(map, v_area(ay, by, ax)) && area_open(map, h_area(ax, bx, by))
}

/// Each room is joined to the one before it.
pub open spec fn rooms_joined(map: Seq<MapCell>, rooms: Seq<Rect>) -> bool {
    forall|j: int| 1 <= j < rooms.len() ==> joined(map, rooms[j - 1], #[trigger] rooms[j])
}

/// Clearing cells keeps cleared what was.
pub proof fn lemma_area_open_opened(map: Seq<MapCell>, area: spec_fn(int, int) -> bool, other: spec_fn(int, int) -> bool)
    requires
        map.len() == map_size(),
    ensures
        area_open(map, other) ==> area_open(opened(map, area), other),
        area_open(opened(map, area), area),
{
    assert forall|x: int, y: int| in_map(x, y) && area(x, y) implies #[trigger] floor_at(opened(map, area), x, y) by {
        lemma_opened_cells(map, area, x, y);
    }
    if area_open(map, other) {
        assert forall|x: int, y: int| in_map(x, y) && other(x, y) implies #[trigger] floor_at(opened(map, area), x, y) by {
            assert(floor_at(map, x, y));
            lemma_opened_cells(map, area, x, y);
        }
    }
}

/// Clearing cells keeps the rooms joined.
pub proof fn lemma_rooms_joined_opened(map: Seq<MapCell>, area: spec_fn(int, int) -> bool, rooms: Seq<Rect>)
    requires
        map.len() == map_size(),
        rooms_joined(map, rooms),
    ensures
        rooms_joined(opened(map, area), rooms),
{
    assert forall|j: int| 1 <= j < rooms.len() implies joined(opened(map, area), rooms[j - 1], #[trigger] rooms[j]) by {
        let (ax, ay) = rooms[j - 1].spec_center();
        let (bx, by) = rooms[j].spec_center();
        lemma_area_open_opened(map, area, h_area(ax, bx, ay));
        lemma_area_open_opened(map, area, v_area(ay, by, bx));
        lemma_area_open_opened(map, area, v_area(ay, by, ax));
        lemma_area_open_opened(map, area, h_area(ax, bx, by));
    }
}

/// Digging the two tunnels from the middle of the last room to the middle of
/// `room` joins `room` to it, and keeps the rooms joined.
pub proof fn lemma_tunnels_join(map0: Seq<MapCell>, rooms: Seq<Rect>, room: Rect, horizontal_first: bool)
    requires
        map0.len() == map_size(),
        rooms.len() > 0,
        rooms_joined(map0, rooms),
    ensures
        ({
            let (ax, ay) = rooms.last().spec_center();
            let (bx, by) = room.spec_center();
            let map2 = if horizontal_first {
                opened(opened(map0, h_area(ax, bx, ay)), v_area(ay, by, bx))
            } else {
                opened(opened(map0, v_area(ay, by, ax)), h_area(ax, bx, by))
            };
            rooms_joined(map2, rooms.push(room))
        }),
{
    let (ax, ay) = rooms.last().spec_center();
    let (bx, by) = room.spec_center();
    let (a1, a2) = if horizontal_first {
        (h_area(ax, bx, ay), v_area(ay, by, bx))
    } else {
        (v_area(ay, by, ax), h_area(ax, bx, by))
    };
    let map1 = opened(map0, a1);
    let map2 = opened(map1, a2);
    lemma_rooms_joined_opened(map0, a1, rooms);
    lemma_rooms_joined_opened(map1, a2, rooms);
    lemma_area_open_opened(map0, a1, a1);
    lemma_area_open_opened(map1, a2, a1);
    assert(joined(map2, rooms.last(), room));
    let rs = rooms.push(room);
    assert forall|j: int| 1 <= j < rs.len() implies joined(map2, rs[j - 1], #[trigger] rs[j]) by {
        if j < rooms.len() {
            assert(rs[j] == rooms[j] && rs[j - 1] == rooms[j - 1]);
        } else {
            assert(rs[j - 1] == rooms.last());
        }
    }
}

/// The layout of a level: at most `MAX_ROOMS` rooms of the allowed sizes on
/// the map, apart from each other, cleared and each joined to the one before
/// it by a tunnel, the player (whose symbol is the `k`-th) in the middle of
/// the first room and the stairs, added last, in the middle of the last room.
pub open spec fn rooms_layout(post: WorldView, k: int, rooms: Seq<Rect>) -> bool {
    let stairs = post.entities.last().1;
    let ss = post.symbols[stairs.symbol.unwrap() as int];
    &&& 0 < rooms.len() <= cfg::MAX_ROOMS
    &&& forall|j: int| 0 <= j < rooms.len() ==> room_ok(#[trigger] rooms[j]) && room_sized(rooms[j])
    &&& rooms_apart(rooms)
    &&& rooms_open(post.map, rooms)
    &&& rooms_joined(post.map, rooms)
    &&& (post.symbols[k].x as int, post.symbols[k].y as int) == rooms[0].spec_center()
    &&& (ss.x as int, ss.y as int) == rooms.last().spec_center()
}

/// Clearing cells keeps the rooms cleared.
pub proof fn lemma_rooms_open_opened(map: Seq<MapCell>, area: spec_fn(int, int) -> bool, rooms: Seq<Rect>)
    requires
        map.len() == map_size(),
        rooms_open(map, rooms),
        forall|j: int| 0 <= j < rooms.len() ==> room_ok(#[trigger] rooms[j]),
    ensures
        rooms_open(opened(map, area), rooms),
{
    assert forall|j: int, x: int, y: int|
        #![trigger rooms[j], floor_at(opened(map, area), x, y)]
        0 <= j < rooms.len() && rooms[j].inside(x, y) implies floor_at(opened(map, area), x, y) by {
        assert(room_ok(rooms[j]));
        assert(floor_at(map, x, y));
        lemma_opened_cells(map, area, x, y);
    }
}

/// Carving a room clears its inside.
pub proof fn lemma_room_opened(map: Seq<MapCell>, rooms: Seq<Rect>, room: Rect)
    requires
        map.len() == map_size(),
        rooms_open(map, rooms),
        room_ok(room),
        forall|j: int| 0 <= j < rooms.len() ==> room_ok(#[trigger] rooms[j]),
    ensures
        rooms_open(opened(map, room_area(room)), rooms.push(room)),
{
    let m2 = opened(map, room_area(room));
    lemma_rooms_open_opened(map, room_area(room), rooms);
    let rs = rooms.push(room);
    assert forall|j: int, x: int, y: int|
        #![trigger rs[j], floor_at(m2, x, y)]
        0 <= j < rs.len() && rs[j].inside(x, y) implies floor_at(m2, x, y) by {
        if j < rooms.len() {
            assert(rs[j] == rooms[j]);
        } else {
            lemma_opened_cells(map, room_area(room), x, y);
        }
    }
}

/// What holds of a level built on `pre`, whatever was drawn: the map is
/// complete, with rock all around its edge; the player stands on floor; the
/// stairs down, added last, stand on floor too; every monster and item added
/// is made for the level and stands on floor; the rooms are apart from each
/// other, cleared and joined one after the other by tunnels, the player in
/// the middle of the first and the stairs in the middle of the last; and
/// nothing else changes but where the player stands.
pub open spec fn level_built(
    pre: WorldView,
    post: WorldView,
    cl: &CharactersLoader,
    il: &ItemsLoader,
    level: int,
) -> bool {
    let k = pre.ix(pre.player.id).symbol.unwrap() as int;
    let p = post.symbols[k];
    let stairs = post.entities.last().1;
    let ss = post.symbols[stairs.symbol.unwrap() as int];
    &&& post.map_ready()
    &&& border_walls(post.map)
    &&& floor_at(post.map, p.x as int, p.y as int)
    &&& post.player == pre.player
    &&& post.must_be_destroyed == pre.must_be_destroyed
    &&& level_kept(pre, post, k)
    &&& post.id_count == pre.id_count + (post.entities.len() - pre.entities.len())
    &&& post.entities.len() <= pre.entities.len() + LEVEL_IDS
    &&& added_ok(pre, post, cl, il, level)
    &&& post.entities.len() > pre.entities.len()
    &&& stairs.symbol is Some
    &&& stairs.map_object is Some
    &&& post.map_objects[stairs.map_object.unwrap() as int].name == "stairs"@
    &&& floor_at(post.map, ss.x as int, ss.y as int)
    &&& exists|rooms: Seq<Rect>| #[trigger] rooms_layout(post, k, rooms)
}

/// What building a level needs: an empty map, the player, room for the ids,
/// and templates to populate it with.
pub open spec fn make_map_ready(w: WorldView, cl: &CharactersLoader, il: &ItemsLoader, level: int) -> bool {
    &&& w.map.len() == 0
    &&& w.is_character(w.player.id)
    &&& w.id_count + LEVEL_IDS <= u32::MAX
    &&& loaders_ready(cl, il, level)
}

/// A room drawn for a level: where it lies, the coin tossed for the tunnels
/// that join it to the room before (along the row first if it is set), and
/// the monsters and items drawn for it.
pub struct RoomDraw {
    pub rect: Rect,
    pub coin: bool,
    pub monsters: Vec<(i32, i32, usize)>,
    pub items: Vec<(i32, i32, usize)>,
}

/// A room drawn within the ranges: from `ROOM_MIN_SIZE` to `ROOM_MAX_SIZE`
/// each way, at a corner that keeps it inside the map, with monsters and
/// items drawn for it.
pub open spec fn draw_ok(d: RoomDraw, cl: &CharactersLoader, il: &ItemsLoader, level: int) -> bool {
    let r = d.rect;
    &&& cfg::ROOM_MIN_SIZE <= r.x2 - r.x1 <= cfg::ROOM_MAX_SIZE
    &&& cfg::ROOM_MIN_SIZE <= r.y2 - r.y1 <= cfg::ROOM_MAX_SIZE
    &&& 0 <= r.x1
    &&& r.x2 < cfg::MAP_WIDTH
    &&& 0 <= r.y1
    &&& r.y2 < cfg::MAP_HEIGHT
    &&& draws_ok(r, cl, il, level, d.monsters@, d.items@)
}

/// The corner of the room of hints: drawn on the first level only, inside
/// the map.
pub open spec fn hints_ok(hint: Option<(i32, i32)>, level: int) -> bool {
    &&& (hint is Some <==> level == 1)
    &&& hint matches Some((x, y)) ==> 0 <= x < cfg::MAP_WIDTH - 6 && 0 <= y < cfg::MAP_HEIGHT - 6
}

/// The rooms a level starts with: the room of hints, if there is one.
pub open spec fn hint_rooms(hint: Option<(i32, i32)>) -> Seq<Rect> {
    match hint {
        Some((x, y)) => seq![Rect { x1: x, y1: y, x2: (x + 6) as i32, y2: (y + 6) as i32 }],
        None => seq![],
    }
}

/// The world with the room of hints, if there is one.
pub open spec fn hinted(w: WorldView, hint: Option<(i32, i32)>) -> WorldView {
    match hint {
        Some((x, y)) => hints_placed(w, x as int, y as int),
        None => w,
    }
}

/// The map with the tunnels from the middle `(px, py)` of one room to the
/// middle `(cx, cy)` of the next: along the row and then the column, or the
/// other way round.
pub open spec fn tunnels(map: Seq<MapCell>, px: int, py: int, cx: int, cy: int, row_first: bool) -> Seq<MapCell> {
    if row_first {
        opened(opened(map, h_area(px, cx, py)), v_area(py, cy, cx))
    } else {
        opened(opened(map, v_area(py, cy, px)), h_area(px, cx, cy))
    }
}

/// The world and the rooms after the room `d` is drawn: a room that meets one
/// before it is left out; otherwise it is carved and populated, and the
/// player (symbol `k0`) is put in its middle if it is the first, or else it
/// is joined to the room before.
pub open spec fn room_built(
    w: WorldView,
    rooms: Seq<Rect>,
    d: RoomDraw,
    k0: int,
    cl: &CharactersLoader,
    il: &ItemsLoader,
) -> (WorldView, Seq<Rect>) {
    if exists|q: int| 0 <= q < rooms.len() && d.rect.spec_intersects_with(#[trigger] rooms[q]) {
        (w, rooms)
    } else {
        let w1 = placed_drawn(WorldView { map: opened(w.map, room_area(d.rect)), ..w }, cl, il, d.monsters@, d.items@);
        let (cx, cy) = d.rect.spec_center();
        let w2 = if rooms.len() == 0 {
            WorldView { symbols: w1.symbols.update(k0, Symbol { x: cx as i32, y: cy as i32, ..w1.symbols[k0] }), ..w1 }
        } else {
            let (px, py) = rooms.last().spec_center();
            WorldView { map: tunnels(w1.map, px, py, cx, cy, d.coin), ..w1 }
        };
        (w2, rooms.push(d.rect))
    }
}

/// The world and the rooms after the rooms `draws` are drawn, in order.
pub open spec fn rooms_built(
    w: WorldView,
    rooms: Seq<Rect>,
    draws: Seq<RoomDraw>,
    k0: int,
    cl: &CharactersLoader,
    il: &ItemsLoader,
) -> (WorldView, Seq<Rect>)
    decreases draws.len(),
{
    if draws.len() == 0 {
        (w, rooms)
    } else {
        let (v, r) = rooms_built(w, rooms, draws.drop_last(), k0, cl, il);
        room_built(v, r, draws.last(), k0, cl, il)
    }
}

/// The level built from what was drawn: rock everywhere, the room of hints,
/// the rooms drawn, and the stairs in the middle of the last room.
pub open spec fn level_from_draws(
    pre: WorldView,
    cl: &CharactersLoader,
    il: &ItemsLoader,
    level: int,
    hint: Option<(i32, i32)>,
    draws: Seq<RoomDraw>,
) -> WorldView {
    let k0 = pre.ix(pre.player.id).symbol.unwrap() as int;
    let w1 = hinted(walls_added(pre, map_size()), hint);
    let (w2, rooms) = rooms_built(w1, hint_rooms(hint), draws, k0, cl, il);
    let (sx, sy) = rooms.last().spec_center();
    stairs_builder(sx, sy).stored_in(w2)
}

/// Builds the level drawn: rock everywhere; on the first level the room of
/// hints at `hint`; then each room drawn that meets no room before it is
/// carved, populated with its monsters and items, and joined to the room
/// before by tunnels (row first if its coin says so), the player in the
/// first room and the stairs in the last.
#[verifier::rlimit(100)]
#[verifier::spinoff_prover]
pub fn build_level(
    world: &mut World,
    char_loader: &CharactersLoader,
    items_loader: &ItemsLoader,
    level: u32,
    hint: Option<(i32, i32)>,
    draws: &Vec<RoomDraw>,
)
    requires
        old(world)@.wf(),
        make_map_ready(old(world)@, char_loader, items_loader, level as int),
        hints_ok(hint, level as int),
        draws@.len() + (if hint is Some { 1int } else { 0 }) == cfg::MAX_ROOMS,
        forall|j: int| 0 <= j < draws@.len() ==> draw_ok(#[trigger] draws@[j], char_loader, items_loader, level as int),
    ensures
        final(world)@.wf(),
        level_built(old(world)@, final(world)@, char_loader, items_loader, level as int),
        final(world)@ == level_from_draws(old(world)@, char_loader, items_loader, level as int, hint, draws@),
{
    let ghost pre = world@;
    let pix = world.get_indexes(world.player.id).unwrap();
    proof {
        pre.lemma_wf_indexes(pre.player.id);
    }
    let k0 = pix.symbol.unwrap();
    fill_walls(world);
    proof {
        lemma_walls_added(pre, map_size());
        lemma_all_walls(pre);
        let w = world@;
        pre.lemma_has_appended(w, pre.player.id);
        assert(components_kept(pre, w)) by {
            lemma_kept_refl(pre);
        }
        lemma_level_kept_start(pre, w, k0 as int);
        assert(added_ok(pre, w, char_loader, items_loader, level as int)) by {
            assert forall|i: int| pre.entities.len() <= i < w.entities.len() implies {
                let ix = (#[trigger] w.entities[i]).1;
                (ix.character is Some || ix.item is Some) ==> {
                    &&& placed_ok(w, ix, char_loader, items_loader, level as int)
                    &&& ix.symbol.unwrap() >= pre.symbols.len()
                }
            } by {}
        }
    }
    let ghost w0 = world@;
    let mut rooms: Vec<Rect> = Vec::new();
    if let Some((hx, hy)) = hint {
        let ghost before = world@;
        place_hints_at(world, &mut rooms, hx, hy);
        proof {
            let (x, y) = (hx as int, hy as int);
            lemma_hints_level(pre, before, x, y, char_loader, items_loader, level as int);
            let w = world@;
            assert(level_kept(pre, w, k0 as int)) by {
                lemma_level_kept_then(pre, before, WorldView { symbols: before.symbols, ..w }, k0 as int);
                assert forall|i: int| 0 <= i < pre.symbols.len() && i != k0 as int implies #[trigger] w.symbols[i] == pre.symbols[i] by {
                    assert(w.symbols[i] == before.symbols[i]);
                }
            }
            pre.lemma_has_appended(w, pre.player.id);
            let r = rooms@[0];
            assert(r.spec_center() == ((x + x + 6) / 2, (y + y + 6) / 2));
            assert(rooms@ =~= seq![r]);
        }
    }
    let ghost w1 = world@;
    let ghost r1 = rooms@;
    proof {
        assert(r1 == hint_rooms(hint));
        assert(w1 == hinted(w0, hint));
        assert(draws@.take(0) =~= Seq::<RoomDraw>::empty());
    }
    let start = rooms.len();
    let mut n: usize = start;
    while n < cfg::MAX_ROOMS
        invariant
            w1 == hinted(walls_added(pre, map_size()), hint),
            r1 == hint_rooms(hint),
            start == r1.len(),
            draws@.len() + start == cfg::MAX_ROOMS,
            forall|j: int| 0 <= j < draws@.len() ==> draw_ok(#[trigger] draws@[j], char_loader, items_loader, level as int),
            (world@, rooms@) == rooms_built(w1, r1, draws@.take(n - start), k0 as int, char_loader, items_loader),
            pre.wf(),
            make_map_ready(pre, char_loader, items_loader, level as int),
            k0 as int == pre.ix(pre.player.id).symbol.unwrap(),
            k0 < pre.symbols.len(),
            start <= 1,
            start <= n <= cfg::MAX_ROOMS,
            n > start ==> rooms@.len() > 0,
            level != 1 ==> start == 0,
            start == rooms@.len() || n > start,
            rooms@.len() <= n,
            forall|j: int| 0 <= j < rooms@.len() ==> room_ok(#[trigger] rooms@[j]) && room_sized(rooms@[j]),
            world@.wf(),
            world@.map.len() == map_size(),
            border_walls(world@.map),
            world@.player == pre.player,
            world@.must_be_destroyed == pre.must_be_destroyed,
            level_kept(pre, world@, k0 as int),
            world@.is_character(pre.player.id),
            world@.ix(pre.player.id) == pre.ix(pre.player.id),
            world@.id_count == pre.id_count + (world@.entities.len() - pre.entities.len()),
            world@.entities.len() <= pre.entities.len() + map_size() + 8 + 7 * n,
            added_ok(pre, world@, char_loader, items_loader, level as int),
            rooms@.len() > 0 ==> floor_at(world@.map, world@.symbols[k0 as int].x as int, world@.symbols[k0 as int].y as int),
            rooms@.len() > 0 ==> floor_at(
                world@.map,
                rooms@.last().spec_center().0,
                rooms@.last().spec_center().1,
            ),
            rooms_apart(rooms@),
            rooms_open(world@.map, rooms@),
            rooms_joined(world@.map, rooms@),
            rooms@.len() > 0 ==> (world@.symbols[k0 as int].x as int, world@.symbols[k0 as int].y as int)
                == rooms@[0].spec_center(),
        decreases cfg::MAX_ROOMS - n,
    {
        let d = &draws[n - start];
        let new_room = d.rect;
        let ghost dj = draws@[n - start];
        let ghost wr = (world@, rooms@);
        proof {
            assert(draw_ok(dj, char_loader, items_loader, level as int));
            assert(draws@.take(n - start + 1).drop_last() =~= draws@.take(n - start));
            assert(draws@.take(n - start + 1).last() == dj);
        }
        // run through the other rooms and see if they intersect with this one
        let mut failed = false;
        let mut j: usize = 0;
        while j < rooms.len()
            invariant
                j <= rooms@.len(),
                !failed || rooms@.len() > 0,
                failed <==> exists|q: int| 0 <= q < j && new_room.spec_intersects_with(#[trigger] rooms@[q]),
            decreases rooms@.len() - j,
        {
            if new_room.intersects_with(&rooms[j]) {
                failed = true;
            }
            j = j + 1;
        }
        if !failed {
            // no intersections: this room is valid; carve it out
            let ghost before = world@;
            create_room(new_room, &mut world.map);
            proof {
                let area = room_area(new_room);
                lemma_added_opened(pre, before, area, char_loader, items_loader, level as int);
                lemma_opened_border(before.map, area);
                let c = new_room.spec_center();
                lemma_opened_cells(before.map, area, c.0, c.1);
                let p = before.symbols[k0 as int];
                before.lemma_symbol_on_grid(k0 as int);
                lemma_opened_cells(before.map, area, p.x as int, p.y as int);
                assert(world@ == WorldView { map: opened(before.map, area), ..before });
                lemma_room_opened(before.map, rooms@, new_room);
                lemma_rooms_joined_opened(before.map, area, rooms@);
            }
            // add some content to this room, such as monsters
            let ghost before_objects = world@;
            proof {
                lemma_from_level_bound(monsters_per_room(), level as int, 5);
                lemma_from_level_bound(items_per_room(), level as int, 2);
            }
            place_drawn(new_room, world, char_loader, items_loader, level, &d.monsters, &d.items);
            proof {
                let w2 = world@;
                lemma_level_kept_then(pre, before_objects, w2, k0 as int);
                before_objects.lemma_has_appended(w2, pre.player.id);
                assert(w2.symbols[k0 as int] == before_objects.symbols[k0 as int]) by {
                    assert(w2.symbols.subrange(0, before_objects.symbols.len() as int)[k0 as int] == w2.symbols[k0 as int]);
                }
                assert(added_ok(pre, w2, char_loader, items_loader, level as int)) by {
                    assert forall|i: int| pre.entities.len() <= i < w2.entities.len() implies {
                        let ix = (#[trigger] w2.entities[i]).1;
                        (ix.character is Some || ix.item is Some) ==> {
                            &&& placed_ok(w2, ix, char_loader, items_loader, level as int)
                            &&& ix.symbol.unwrap() >= pre.symbols.len()
                        }
                    } by {
                        if i < before_objects.entities.len() {
                            assert(w2.entities[i] == w2.entities.subrange(0, before_objects.entities.len() as int)[i]);
                            assert(before_objects.indexes_wf(before_objects.entities[i].1));
                            lemma_placed_kept(
                                before_objects,
                                w2,
                                before_objects.entities[i].1,
                                char_loader,
                                items_loader,
                                level as int,
                                new_room,
                            );
                        }
                    }
                }
            }
            // center coordinates of the new room
            let (new_x, new_y) = new_room.center();
            if rooms.len() == 0 {
                // the first room, where the player starts
                let ghost before_move = world@;
                let mut player_symbol = world.symbols[k0];
                player_symbol.x = new_x;
                player_symbol.y = new_y;
                world.symbols.set(k0, player_symbol);
                proof {
                    lemma_added_moved(pre, before_move, k0 as int, player_symbol, char_loader, items_loader, level as int);
                    before_move.lemma_same_entities(world@);
                }
            } else {
                // connect it to the previous room with a tunnel
                let (prev_x, prev_y) = rooms[rooms.len() - 1].center();
                let ghost before_tunnels = world@;
                proof {
                    assert(room_ok(rooms@[rooms@.len() - 1]));
                }
                // the coin tossed for this room
                if d.coin {
                    // first move horizontally, then vertically
                    create_h_tunnel(prev_x, new_x, prev_y, &mut world.map);
                    proof {
                        let a = h_area(prev_x as int, new_x as int, prev_y as int);
                        let b4 = before_tunnels;
                        lemma_added_opened(pre, b4, a, char_loader, items_loader, level as int);
                        lemma_opened_border(b4.map, a);
                        let p = b4.symbols[k0 as int];
                        b4.lemma_symbol_on_grid(k0 as int);
                        lemma_opened_cells(b4.map, a, p.x as int, p.y as int);
                        lemma_opened_cells(b4.map, a, new_x as int, new_y as int);
                        assert(world@ == WorldView { map: opened(b4.map, a), ..b4 });
                        lemma_rooms_open_opened(b4.map, a, rooms@.push(new_room));
                    }
                    let ghost mid = world@;
                    create_v_tunnel(prev_y, new_y, new_x, &mut world.map);
                    proof {
                        let a = v_area(prev_y as int, new_y as int, new_x as int);
                        lemma_added_opened(pre, mid, a, char_loader, items_loader, level as int);
                        lemma_opened_border(mid.map, a);
                        let p = mid.symbols[k0 as int];
                        mid.lemma_symbol_on_grid(k0 as int);
                        lemma_opened_cells(mid.map, a, p.x as int, p.y as int);
                        lemma_opened_cells(mid.map, a, new_x as int, new_y as int);
                        assert(world@ == WorldView { map: opened(mid.map, a), ..mid });
                        lemma_rooms_open_opened(mid.map, a, rooms@.push(new_room));
                        assert(world@.map == opened(opened(before_tunnels.map, h_area(prev_x as int, new_x as int, prev_y as int)), a));
                        lemma_tunnels_join(before_tunnels.map, rooms@, new_room, true);
                    }
                } else {
                    // first move vertically, then horizontally
                    create_v_tunnel(prev_y, new_y, prev_x, &mut world.map);
                    proof {
                        let a = v_area(prev_y as int, new_y as int, prev_x as int);
                        let b4 = before_tunnels;
                        lemma_added_opened(pre, b4, a, char_loader, items_loader, level as int);
                        lemma_opened_border(b4.map, a);
                        let p = b4.symbols[k0 as int];
                        b4.lemma_symbol_on_grid(k0 as int);
                        lemma_opened_cells(b4.map, a, p.x as int, p.y as int);
                        lemma_opened_cells(b4.map, a, new_x as int, new_y as int);
                        assert(world@ == WorldView { map: opened(b4.map, a), ..b4 });
                        lemma_rooms_open_opened(b4.map, a, rooms@.push(new_room));
                    }
                    let ghost mid = world@;
                    create_h_tunnel(prev_x, new_x, new_y, &mut world.map);
                    proof {
                        let a = h_area(prev_x as int, new_x as int, new_y as int);
                        lemma_added_opened(pre, mid, a, char_loader, items_loader, level as int);
                        lemma_opened_border(mid.map, a);
                        let p = mid.symbols[k0 as int];
                        mid.lemma_symbol_on_grid(k0 as int);
                        lemma_opened_cells(mid.map, a, p.x as int, p.y as int);
                        lemma_opened_cells(mid.map, a, new_x as int, new_y as int);
                        assert(world@ == WorldView { map: opened(mid.map, a), ..mid });
                        lemma_rooms_open_opened(mid.map, a, rooms@.push(new_room));
                        assert(world@.map == opened(opened(before_tunnels.map, v_area(prev_y as int, new_y as int, prev_x as int)), a));
                        lemma_tunnels_join(before_tunnels.map, rooms@, new_room, false);
                    }
                }
            }
            // finally, append the new room to the list
            let ghost old_rooms = rooms@;
            rooms.push(new_room);
            proof {
                assert forall|i: int, j: int| 0 <= i < j < rooms@.len() implies !(#[trigger] rooms@[i]).spec_intersects_with(
                    #[trigger] rooms@[j],
                ) by {
                    if j == old_rooms.len() {
                        assert(rooms@[i] == old_rooms[i]);
                        assert(!new_room.spec_intersects_with(old_rooms[i]));
                    } else {
                        assert(rooms@[i] == old_rooms[i] && rooms@[j] == old_rooms[j]);
                    }
                }
            }
        }
        proof {
            assert((world@, rooms@) == room_built(wr.0, wr.1, dj, k0 as int, char_loader, items_loader));
        }
        n = n + 1;
    }
    // create stairs at the center of the last room
    let (last_room_x, last_room_y) = rooms[rooms.len() - 1].center();
    proof {
        assert(room_ok(rooms@[rooms@.len() - 1]));
        assert(draws@.take(n - start) =~= draws@);
        assert((world@, rooms@) == rooms_built(w1, r1, draws@, k0 as int, char_loader, items_loader));
    }
    let ghost before_stairs = world@;
    spawn_stairs(world, last_room_x, last_room_y);
    proof {
        let b = stairs_builder(last_room_x as int, last_room_y as int);
        lemma_stored_kept(before_stairs, b);
        lemma_added_stored(pre, before_stairs, b, char_loader, items_loader, level as int);
        lemma_level_kept_then(pre, before_stairs, world@, k0 as int);
        game::lemma_len_bounds(world);
        assert(world@.symbols[k0 as int] == before_stairs.symbols[k0 as int]);
        assert(rooms_layout(world@, k0 as int, rooms@));
        assert(world@ == level_from_draws(pre, char_loader, items_loader, level as int, hint, draws@));
    }
}

/// Builds a level: on the first level the corner of the room of hints is
/// drawn, then `MAX_ROOMS` rooms in all are drawn at random sizes and places;
/// for each that meets no room before it, its monsters and items are drawn,
/// and, past the first, the coin for its tunnels. `build_level` builds the
/// level from what was drawn; whatever it was, the level has the properties
/// of `level_built`.
pub fn make_map(world: &mut World, char_loader: &CharactersLoader, items_loader: &ItemsLoader, level: u32)
    requires
        old(world)@.wf(),
        make_map_ready(old(world)@, char_loader, items_loader, level as int),
    ensures
        final(world)@.wf(),
        level_built(old(world)@, final(world)@, char_loader, items_loader, level as int),
        exists|hint: Option<(i32, i32)>, draws: Seq<RoomDraw>|
            {
                &&& hints_ok(hint, level as int)
                &&& draws.len() + (if hint is Some { 1int } else { 0 }) == cfg::MAX_ROOMS
                &&& forall|j: int| 0 <= j < draws.len() ==> draw_ok(#[trigger] draws[j], char_loader, items_loader, level as int)
                &&& final(world)@ == #[trigger] level_from_draws(
                    old(world)@,
                    char_loader,
                    items_loader,
                    level as int,
                    hint,
                    draws,
                )
            },
{
    let hint = if level == 1 {
        let x = crate::rng::gen_range(0, cfg::MAP_WIDTH - 6);
        let y = crate::rng::gen_range(0, cfg::MAP_HEIGHT - 6);
        Some((x, y))
    } else {
        None
    };
    let mut rooms: Vec<Rect> = Vec::new();
    if let Some((x, y)) = hint {
        rooms.push(Rect { x1: x, y1: y, x2: x + 6, y2: y + 6 });
    }
    let start = rooms.len();
    let mut draws: Vec<RoomDraw> = Vec::new();
    let mut n: usize = start;
    while n < cfg::MAX_ROOMS
        invariant
            start <= 1,
            start == (if hint is Some { 1int } else { 0 }),
            start <= n <= cfg::MAX_ROOMS,
            draws@.len() == n - start,
            loaders_ready(char_loader, items_loader, level as int),
            forall|j: int| 0 <= j < draws@.len() ==> draw_ok(#[trigger] draws@[j], char_loader, items_loader, level as int),
        decreases cfg::MAX_ROOMS - n,
    {
        // random width and height
        let w = crate::rng::gen_range(cfg::ROOM_MIN_SIZE, cfg::ROOM_MAX_SIZE + 1);
        let h = crate::rng::gen_range(cfg::ROOM_MIN_SIZE, cfg::ROOM_MAX_SIZE + 1);
        // random position without going out of the boundaries of the map
        let x = crate::rng::gen_range(0, cfg::MAP_WIDTH - w);
        let y = crate::rng::gen_range(0, cfg::MAP_HEIGHT - h);
        let new_room = Rect::new(x, y, w, h);
        // run through the other rooms and see if they intersect with this one
        let mut failed = false;
        let mut j: usize = 0;
        while j < rooms.len()
            invariant
                j <= rooms@.len(),
            decreases rooms@.len() - j,
        {
            if new_room.intersects_with(&rooms[j]) {
                failed = true;
            }
            j = j + 1;
        }
        proof {
            lemma_from_level_bound(monsters_per_room(), level as int, 5);
            lemma_from_level_bound(items_per_room(), level as int, 2);
        }
        let draw = if !failed {
            // its monsters and items, and the coin for its tunnels
            let (monsters, items) = draw_objects(new_room, char_loader, items_loader, level);
            let coin = if rooms.len() > 0 {
                crate::rng::random_bool()
            } else {
                false
            };
            rooms.push(new_room);
            RoomDraw { rect: new_room, coin, monsters, items }
        } else {
            RoomDraw { rect: new_room, coin: false, monsters: Vec::new(), items: Vec::new() }
        };
        proof {
            assert(draw_ok(draw, char_loader, items_loader, level as int));
        }
        draws.push(draw);
        n = n + 1;
    }
    build_level(world, char_loader, items_loader, level, hint, &draws);
}

/// What the dungeon system asks of the program around it.
#[derive(Clone, Copy, Debug, PartialEq, Eq, Structural)]
pub enum DungeonRequest {
    /// Nothing to do.
    Nothing,
    /// Save the game as it is now, then start over from an empty world.
    SaveAndLeave,
}

/// A level is to be built: the map is empty during the player's turn. The
/// templates are then loaded and handed to `update`.
pub open spec fn spec_needs_assets(w: WorldView) -> bool {
    w.map.len() == 0 && w.player.state == PlayerState::MakingTurn
}

pub fn needs_assets(world: &World) -> (r: bool)
    ensures
        r == spec_needs_assets(world@),
{
    world.map.len() == 0 && (world.player.state == PlayerState::MakingTurn)
}

pub open spec fn characters_error_msg(err: Seq<char>) -> Seq<char> {
    "Error in the characters config.\nFix the error or delete the character (see \"dummy\" character for example\"):\n\n"@
        + err
}

pub open spec fn items_error_msg(err: Seq<char>) -> Seq<char> {
    "Error in the items config.\nFix the error or delete the item (see \"dummy\" item for example\"):\n\n"@ + err
}

/// A message box with `msg`, the player reading it.
pub open spec fn with_error_box(w: WorldView, msg: Seq<char>) -> WorldView {
    let w1 = w.with_dialog(
        crate::cmtp::DialogView { kind: crate::cmtp::DialogKind::MessageBox, header: msg, options: seq![], width: 36 },
    );
    WorldView { player: PlayerView { state: PlayerState::InDialog, ..w1.player }, ..w1 }
}

/// The world a level is built on: the player is added first if it is not
/// there yet.
pub open spec fn with_player(w: WorldView, cl: &CharactersLoader, il: &ItemsLoader) -> WorldView {
    if w.has(w.player.id) {
        w
    } else {
        player_spawned(w, cl, il)
    }
}

/// The level the player goes to.
pub open spec fn level_of(w: WorldView, cl: &CharactersLoader, il: &ItemsLoader) -> int {
    with_player(w, cl, il).player.dungeon_level as int
}

/// What a frame of the dungeon system needs: when a level is to be built,
/// the templates, loaded or not, and when they are loaded, what spawning the
/// player and building the level need.
pub open spec fn dungeon_ready(
    w: WorldView,
    assets: Option<(Result<&CharactersLoader, String>, Result<&ItemsLoader, String>)>,
) -> bool {
    spec_needs_assets(w) ==> {
        &&& assets is Some
        &&& w.id_count + 3 + LEVEL_IDS <= u32::MAX
        &&& (w.has(w.player.id) ==> w.is_character(w.player.id))
        &&& (assets matches Some((Ok(cl), Ok(il))) ==> {
            &&& (!w.has(w.player.id) ==> player_templates_ok(cl, il))
            &&& loaders_ready(cl, il, level_of(w, cl, il))
        })
    }
}

/// Builds the level the player is on when the map is empty, from the loaded
/// templates (or shows what is wrong with them); asks for the game to be
/// saved and left when the player cancels during its turn. Whatever is drawn
/// for the level, it has the properties of `level_built`.
pub fn update(
    world: &mut World,
    assets: Option<(Result<&CharactersLoader, String>, Result<&ItemsLoader, String>)>,
) -> (r: DungeonRequest)
    requires
        old(world)@.wf(),
        dungeon_ready(old(world)@, assets),
    ensures
        final(world)@.wf(),
        spec_needs_assets(old(world)@) ==> r == DungeonRequest::Nothing && match assets {
            Some((Err(e), _)) => final(world)@ == with_error_box(old(world)@, characters_error_msg(e@)),
            Some((Ok(_), Err(e))) => final(world)@ == with_error_box(old(world)@, items_error_msg(e@)),
            Some((Ok(cl), Ok(il))) => {
                let w1 = with_player(old(world)@, cl, il);
                &&& level_built(
                    w1,
                    (WorldView { player: w1.player, ..final(world)@ }),
                    cl,
                    il,
                    w1.player.dungeon_level as int,
                )
                &&& final(world)@.player == (PlayerView { action: PlayerAction::Nothing, ..w1.player })
            },
            None => false,
        },
        !spec_needs_assets(old(world)@) && spec_is_exiting_to_main_menu(old(world)@) ==> r
            == DungeonRequest::SaveAndLeave && final(world)@ == (WorldView {
            player: PlayerView { action: PlayerAction::Nothing, ..old(world)@.player },
            ..old(world)@
        }),
        !spec_needs_assets(old(world)@) && !spec_is_exiting_to_main_menu(old(world)@) ==> r == DungeonRequest::Nothing
            && final(world)@ == old(world)@,
{
    let ghost pre = world@;
    if needs_assets(world) {
        match assets {
            Some((Err(err), _)) => {
                let mut msg = String::from_str(
                    "Error in the characters config.\nFix the error or delete the character (see \"dummy\" character for example\"):\n\n",
                );
                msg.append(err.as_str());
                world.add_dialog_box(crate::cmtp::DialogKind::MessageBox, msg, Vec::new(), 36);
                world.player.state = PlayerState::InDialog;
                proof {
                    assert(world@.player.look_at =~= with_error_box(pre, characters_error_msg(err@)).player.look_at);
                    assert(world@.dialogs.last().options =~= Seq::<Seq<char>>::empty());
                }
            },
            Some((Ok(_), Err(err))) => {
                let mut msg = String::from_str(
                    "Error in the items config.\nFix the error or delete the item (see \"dummy\" item for example\"):\n\n",
                );
                msg.append(err.as_str());
                world.add_dialog_box(crate::cmtp::DialogKind::MessageBox, msg, Vec::new(), 36);
                world.player.state = PlayerState::InDialog;
                proof {
                    assert(world@.player.look_at =~= with_error_box(pre, items_error_msg(err@)).player.look_at);
                    assert(world@.dialogs.last().options =~= Seq::<Seq<char>>::empty());
                }
            },
            Some((Ok(char_loader), Ok(items_loader))) => {
                if world.find_pos(world.player.id).is_none() {
                    spawn_player(world, char_loader, items_loader);
                }
                let ghost w1 = world@;
                proof {
                    assert(w1 == with_player(pre, char_loader, items_loader));
                    if !pre.has(pre.player.id) {
                        let pb = player_builder(player_template(char_loader));
                        let wa = pb.stored_in(pre);
                        crate::engine::entity::lemma_stored_wf(pb, pre);
                        wa.lemma_indexes_at(wa.entities.len() - 1);
                        let wb = WorldView { player: PlayerView { id: wa.id_count, ..wa.player }, ..wa };
                        wa.lemma_same_entities(wb);
                        let ib = owned_item_builder(pipe_template(items_loader), wb.player.id);
                        let wc = ib.stored_in(wb);
                        lemma_stored_kept(wb, ib);
                        assert(wb.wf());
                        crate::engine::entity::lemma_stored_wf(ib, wb);
                        assert(wb.has(wb.player.id));
                        assert(wb.is_character(wb.player.id));
                        wb.lemma_has_appended(wc, wb.player.id);
                        assert(wc.is_character(wb.player.id));
                        wc.lemma_with_log(welcome_msg(), cfg::color_orange());
                        let wd = wc.with_log(welcome_msg(), cfg::color_orange());
                        assert(wd.is_character(wd.player.id));
                        assert(w1.entities == wd.entities);
                        wd.lemma_same_entities(w1);
                        assert(w1.is_character(w1.player.id));
                    }
                }
                let level = world.player.dungeon_level;
                make_map(world, char_loader, items_loader, level);
                world.player.action = PlayerAction::Nothing;
                proof {
                    assert(world@.player.look_at =~= w1.player.look_at);
                    let mid = WorldView { player: w1.player, ..world@ };
                    assert(mid.entities == world@.entities);
                }
            },
            None => {
                proof {
                    assert(false);
                }
            },
        }
        DungeonRequest::Nothing
    } else if is_exiting_to_main_menu(world) {
        world.player.action = PlayerAction::Nothing;
        proof {
            assert(world@.player.look_at =~= pre.player.look_at);
        }
        DungeonRequest::SaveAndLeave
    } else {
        DungeonRequest::Nothing
    }
}

/// Whether the templates hold a player and a pipe, the pipe drawn on the map.
pub fn check_player_templates(char_loader: &CharactersLoader, items_loader: &ItemsLoader) -> (r: bool)
    ensures
        r == player_templates_ok(char_loader, items_loader),
{
    if !char_loader.has("player") || !items_loader.has("pipe") {
        return false;
    }
    let pipe = items_loader.get_clone("pipe");
    0 <= pipe.symbol.x && pipe.symbol.x < cfg::MAP_WIDTH && 0 <= pipe.symbol.y && pipe.symbol.y < cfg::MAP_HEIGHT
}

/// Whether a frame of the dungeon system can run with `assets`.
pub fn is_ready(
    world: &World,
    assets: &Option<(Result<&CharactersLoader, String>, Result<&ItemsLoader, String>)>,
) -> (r: bool)
    requires
        world@.wf(),
    ensures
        r == dungeon_ready(world@, *assets),
{
    if !needs_assets(world) {
        return true;
    }
    match assets {
        None => false,
        Some((chars, items)) => {
            if world.id_count as u64 + 3 + LEVEL_IDS as u64 > u32::MAX as u64 {
                return false;
            }
            let has_player = world.find_pos(world.player.id).is_some();
            if has_player && world.get_character(world.player.id).is_none() {
                return false;
            }
            match (chars, items) {
                (Ok(cl), Ok(il)) => {
                    let templates_ok = if !has_player {
                        check_player_templates(cl, il)
                    } else {
                        true
                    };
                    let level = if has_player {
                        world.player.dungeon_level
                    } else if world.player.dungeon_level == 0 {
                        1
                    } else {
                        world.player.dungeon_level
                    };
                    proof {
                        assert(level == level_of(world@, cl, il));
                    }
                    let (d1, f1, a1) = cl.check_level(level);
                    let (d2, f2, a2) = il.check_level(level);
                    templates_ok && d1 && d2 && f1 && f2 && a1 && a2
                },
                _ => true,
            }
        },
    }
}

} // verus!
