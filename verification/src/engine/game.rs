//! The game world: every entity of the game, stored as components.
use crate::cfg;
use crate::cmtp::{
    AiOption, Ammo, Character, Color, DialogBox, DialogKind, DialogView, Equipment, LogMessage,
    MapCell, MapObject, MapObjectView, OwnedItem, Player, PlayerView, Slot, Symbol,
};
use crate::engine::entity::{self, Indexes};
use vstd::prelude::*;

verus! {

/// The position lies on the map.
pub open spec fn in_map(x: int, y: int) -> bool {
    0 <= x < cfg::MAP_WIDTH && 0 <= y < cfg::MAP_HEIGHT
}

/// Where the cell at a position is stored in the map vector.
pub open spec fn map_index(x: int, y: int) -> int {
    y * cfg::MAP_WIDTH + x
}

/// The number of cells of a complete map.
pub open spec fn map_size() -> int {
    cfg::MAP_WIDTH * cfg::MAP_HEIGHT
}

/// The index `y * MAP_WIDTH + x`, computed in `i32`, names a cell of a
/// complete map (a position just beyond the left or right edge names the
/// cell at the other end of the row above or below).
pub open spec fn on_grid(x: int, y: int) -> bool {
    &&& i32::MIN <= y * cfg::MAP_WIDTH <= i32::MAX
    &&& i32::MIN <= y * cfg::MAP_WIDTH + x <= i32::MAX
    &&& 0 <= map_index(x, y) < map_size()
}

/// A position on the map names its own cell.
pub proof fn lemma_in_map_on_grid(x: int, y: int)
    requires
        in_map(x, y),
    ensures
        on_grid(x, y),
{
}

/// Whether the index `y * MAP_WIDTH + x` of a position, computed in `i32`,
/// names a cell of a complete map.
pub fn check_on_grid(x: i32, y: i32) -> (r: bool)
    ensures
        r == on_grid(x as int, y as int),
{
    let row = y as i64 * 68;
    let index = row + x as i64;
    i32::MIN as i64 <= row && row <= i32::MAX as i64 && i32::MIN as i64 <= index && index <= i32::MAX as i64
        && 0 <= index && index < 68 * 30
}

/// The most entities a world may hold for the numbers of a turn to stay small.
pub const MAX_ENTITIES: usize = 0x1_0000;

/// Bound on base statistics (`base_max_hp`, `base_defense`, `base_power`).
pub const MAX_BASE_STAT: i32 = 0x1000;

/// Bound on the bonuses of a piece of equipment.
pub const MAX_BONUS: i32 = 0x100;

/// The three numbers that equipment adds to.
#[derive(Clone, Copy, Debug, PartialEq, Eq, Structural)]
pub enum Stat {
    MaxHp,
    Defense,
    Power,
}

pub open spec fn stat_bonus(e: Equipment, stat: Stat) -> int {
    match stat {
        Stat::MaxHp => e.max_hp_bonus as int,
        Stat::Defense => e.defense_bonus as int,
        Stat::Power => e.power_bonus as int,
    }
}

pub open spec fn base_of(c: Character, stat: Stat) -> int {
    match stat {
        Stat::MaxHp => c.base_max_hp as int,
        Stat::Defense => c.base_defense as int,
        Stat::Power => c.base_power as int,
    }
}

/// The indexes of an entity that holds only a log message.
pub open spec fn log_indexes(k: int) -> Indexes {
    Indexes { log_message: Some(k as usize), ..Indexes::empty() }
}

/// The indexes of an entity that holds only a dialog.
pub open spec fn dialog_indexes(k: int) -> Indexes {
    Indexes { dialog: Some(k as usize), ..Indexes::empty() }
}

/// All the state of a game.
///
/// Entities are kept in `entity_indexes` in increasing order of their ids,
/// each with the positions of its components in the component vectors.
#[derive(Debug)]
pub struct World {
    pub id_count: u32,
    pub entity_indexes: Vec<(u32, Indexes)>,
    pub player: Player,
    pub must_be_destroyed: bool,
    pub symbols: Vec<Symbol>,
    pub map: Vec<MapCell>,
    pub map_objects: Vec<MapObject>,
    pub characters: Vec<Character>,
    pub ais: Vec<AiOption>,
    pub items: Vec<OwnedItem>,
    pub equipments: Vec<Equipment>,
    pub ammos: Vec<Ammo>,
    pub log: Vec<LogMessage>,
    pub dialogs: Vec<DialogBox>,
}

/// The world as seen by the specifications.
pub struct WorldView {
    pub id_count: u32,
    pub entities: Seq<(u32, Indexes)>,
    pub player: PlayerView,
    pub must_be_destroyed: bool,
    pub symbols: Seq<Symbol>,
    pub map: Seq<MapCell>,
    pub map_objects: Seq<MapObjectView>,
    pub characters: Seq<Character>,
    pub ais: Seq<AiOption>,
    pub items: Seq<OwnedItem>,
    pub equipments: Seq<Equipment>,
    pub ammos: Seq<Ammo>,
    pub log: Seq<(Seq<char>, Color)>,
    pub dialogs: Seq<DialogView>,
}

impl View for World {
    type V = WorldView;

    open spec fn view(&self) -> WorldView {
        WorldView {
            id_count: self.id_count,
            entities: self.entity_indexes@,
            player: self.player@,
            must_be_destroyed: self.must_be_destroyed,
            symbols: self.symbols@,
            map: self.map@,
            map_objects: self.map_objects@.map_values(|m: MapObject| m@),
            characters: self.characters@,
            ais: self.ais@,
            items: self.items@,
            equipments: self.equipments@,
            ammos: self.ammos@,
            log: self.log@.map_values(|m: LogMessage| m@),
            dialogs: self.dialogs@.map_values(|d: DialogBox| d@),
        }
    }
}

impl WorldView {
    /// The world a game starts from: nothing in it.
    pub open spec fn is_empty_world(self) -> bool {
        &&& self.id_count == 0
        &&& self.entities.len() == 0
        &&& self.player.id == 0
        &&& self.player.dungeon_level == 0
        &&& self.player.state == crate::cmtp::PlayerState::InMenu
        &&& self.player.action == crate::cmtp::PlayerAction::Nothing
        &&& self.player.looking_at is None
        &&& self.player.look_at == seq![None::<u32>, None, None]
        &&& self.player.previous_player_position == (0i32, 0i32)
        &&& !self.must_be_destroyed
        &&& self.symbols.len() == 0
        &&& self.map.len() == 0
        &&& self.map_objects.len() == 0
        &&& self.characters.len() == 0
        &&& self.ais.len() == 0
        &&& self.items.len() == 0
        &&& self.equipments.len() == 0
        &&& self.ammos.len() == 0
        &&& self.log.len() == 0
        &&& self.dialogs.len() == 0
    }

    /// Every component index of `ix` points into its vector (the index of a
    /// dialog is not used to find the dialog, which is always the last one).
    pub open spec fn indexes_wf(self, ix: Indexes) -> bool {
        &&& ix.symbol matches Some(k) ==> k < self.symbols.len()
        &&& ix.map_cell matches Some(k) ==> k < self.map.len()
        &&& ix.map_object matches Some(k) ==> k < self.map_objects.len()
        &&& ix.character matches Some(k) ==> k < self.characters.len()
        &&& ix.ai matches Some(k) ==> k < self.ais.len()
        &&& ix.item matches Some(k) ==> k < self.items.len()
        &&& ix.equipment matches Some(k) ==> k < self.equipments.len()
        &&& ix.ammo matches Some(k) ==> k < self.ammos.len()
        &&& ix.log_message matches Some(k) ==> k < self.log.len()
    }

    /// Entity ids increase along `entities` and none exceeds `id_count`.
    pub open spec fn ids_wf(self) -> bool {
        &&& forall|i: int, j: int|
            #![trigger self.entities[i], self.entities[j]]
            0 <= i < j < self.entities.len() ==> self.entities[i].0 < self.entities[j].0
        &&& forall|i: int|
            0 <= i < self.entities.len() ==> 1 <= #[trigger] self.entities[i].0 <= self.id_count
    }

    /// The world's invariant: ids in order, component indexes in bounds, and
    /// every symbol naming a cell of a complete map by its index
    /// `y * MAP_WIDTH + x`, the cell that blocking tests, the field of view and
    /// drawing look up for it.
    pub open spec fn wf(self) -> bool {
        &&& self.ids_wf()
        &&& forall|i: int|
            0 <= i < self.entities.len() ==> self.indexes_wf(#[trigger] self.entities[i].1)
        &&& forall|i: int|
            0 <= i < self.symbols.len() ==> on_grid(
                #[trigger] self.symbols[i].x as int,
                self.symbols[i].y as int,
            )
    }

    /// Each vector of components is short enough to be indexed by `usize`,
    /// as the vectors of a `World` are.
    pub open spec fn lens_ok(self) -> bool {
        &&& self.symbols.len() <= usize::MAX
        &&& self.map.len() <= usize::MAX
        &&& self.map_objects.len() <= usize::MAX
        &&& self.characters.len() <= usize::MAX
        &&& self.ais.len() <= usize::MAX
        &&& self.items.len() <= usize::MAX
        &&& self.equipments.len() <= usize::MAX
        &&& self.ammos.len() <= usize::MAX
        &&& self.log.len() <= usize::MAX
        &&& self.dialogs.len() <= usize::MAX
    }

    /// The map has all its cells.
    pub open spec fn map_ready(self) -> bool {
        self.map.len() == map_size()
    }

    /// The entity `id` exists.
    pub open spec fn has(self, id: u32) -> bool {
        exists|i: int| 0 <= i < self.entities.len() && #[trigger] self.entities[i].0 == id
    }

    /// Where the entity `id` stands in `entities`.
    pub open spec fn pos_of(self, id: u32) -> int {
        choose|i: int| 0 <= i < self.entities.len() && #[trigger] self.entities[i].0 == id
    }

    /// The component indexes of the entity `id`.
    pub open spec fn indexes_of(self, id: u32) -> Option<Indexes> {
        if self.has(id) {
            Some(self.entities[self.pos_of(id)].1)
        } else {
            None
        }
    }

    pub open spec fn ix(self, id: u32) -> Indexes {
        self.indexes_of(id).unwrap()
    }

    /// The entity `id` is a full character: drawn, named, fighting, thinking.
    pub open spec fn is_character(self, id: u32) -> bool {
        self.indexes_of(id) matches Some(ix) && ix.symbol is Some && ix.map_object is Some
            && ix.character is Some && ix.ai is Some
    }

    /// The entity `id` stands on the map under a name.
    pub open spec fn is_map_obj(self, id: u32) -> bool {
        self.indexes_of(id) matches Some(ix) && ix.symbol is Some && ix.map_object is Some
    }

    /// The entity `id` is an item that can be seen on the map or in an inventory.
    pub open spec fn is_item(self, id: u32) -> bool {
        self.indexes_of(id) matches Some(ix) && ix.symbol is Some && ix.map_object is Some
            && ix.item is Some
    }

    /// The entity `id` has a name and a fighter.
    pub open spec fn is_fighter(self, id: u32) -> bool {
        self.indexes_of(id) matches Some(ix) && ix.map_object is Some && ix.character is Some
    }

    /// The entity `id` has a name.
    pub open spec fn is_named(self, id: u32) -> bool {
        self.indexes_of(id) matches Some(ix) && ix.map_object is Some
    }

    /// The entity `id` has a symbol.
    pub open spec fn has_symbol(self, id: u32) -> bool {
        self.indexes_of(id) matches Some(ix) && ix.symbol is Some
    }

    pub open spec fn sym_of(self, id: u32) -> Symbol {
        self.symbols[self.ix(id).symbol.unwrap() as int]
    }

    pub open spec fn mobj_of(self, id: u32) -> MapObjectView {
        self.map_objects[self.ix(id).map_object.unwrap() as int]
    }

    pub open spec fn char_of(self, id: u32) -> Character {
        self.characters[self.ix(id).character.unwrap() as int]
    }

    pub open spec fn ai_of(self, id: u32) -> AiOption {
        self.ais[self.ix(id).ai.unwrap() as int]
    }

    pub open spec fn item_of(self, id: u32) -> OwnedItem {
        self.items[self.ix(id).item.unwrap() as int]
    }

    pub open spec fn eqp_of(self, id: u32) -> Option<Equipment> {
        match self.ix(id).equipment {
            Some(k) => Some(self.equipments[k as int]),
            None => None,
        }
    }

    pub open spec fn ammo_of(self, id: u32) -> Option<Ammo> {
        match self.ix(id).ammo {
            Some(k) => Some(self.ammos[k as int]),
            None => None,
        }
    }

    /// The map cell at a position.
    pub open spec fn cell_at(self, x: int, y: int) -> MapCell {
        self.map[map_index(x, y)]
    }

    /// The player exists as a character and is alive.
    pub open spec fn player_alive(self) -> bool {
        self.is_character(self.player.id) && self.char_of(self.player.id).alive
    }

    pub proof fn lemma_indexes_at(self, i: int)
        requires
            self.ids_wf(),
            0 <= i < self.entities.len(),
        ensures
            self.has(self.entities[i].0),
            self.pos_of(self.entities[i].0) == i,
            self.indexes_of(self.entities[i].0) == Some(self.entities[i].1),
    {
        let id = self.entities[i].0;
        assert(self.has(id));
        let p = self.pos_of(id);
        if p < i {
            assert(self.entities[p].0 < self.entities[i].0);
        } else if p > i {
            assert(self.entities[i].0 < self.entities[p].0);
        }
    }

    pub proof fn lemma_wf_indexes(self, id: u32)
        requires
            self.wf(),
            self.has(id),
        ensures
            self.indexes_wf(self.ix(id)),
            0 <= self.pos_of(id) < self.entities.len(),
            self.entities[self.pos_of(id)].0 == id,
    {
        let p = self.pos_of(id);
        assert(self.indexes_wf(self.entities[p].1));
    }

    pub proof fn lemma_symbol_on_grid(self, k: int)
        requires
            self.wf(),
            0 <= k < self.symbols.len(),
        ensures
            on_grid(self.symbols[k].x as int, self.symbols[k].y as int),
            0 <= map_index(self.symbols[k].x as int, self.symbols[k].y as int) < map_size(),
    {
        assert(on_grid(self.symbols[k].x as int, self.symbols[k].y as int));
    }

    /// The entity with indexes `ix` is an item carried by `owner` and equipped.
    pub open spec fn equipped_by(self, ix: Indexes, owner: u32) -> bool {
        &&& ix.symbol is Some
        &&& ix.map_object is Some
        &&& ix.item is Some
        &&& ix.equipment is Some
        &&& self.items[ix.item.unwrap() as int].owner == owner
        &&& self.equipments[ix.equipment.unwrap() as int].equipped
    }

    /// The bonuses to `stat` of the equipment that `owner` wears, summed over
    /// the first `n` entities.
    pub open spec fn bonus_sum(self, n: int, owner: u32, stat: Stat) -> int
        decreases n,
    {
        if n <= 0 {
            0
        } else {
            let ix = self.entities[n - 1].1;
            self.bonus_sum(n - 1, owner, stat) + if self.equipped_by(ix, owner) {
                stat_bonus(self.equipments[ix.equipment.unwrap() as int], stat)
            } else {
                0
            }
        }
    }

    /// The base value of `stat` of the character `id` (0 when `id` is not a
    /// character).
    pub open spec fn base_stat(self, id: u32, stat: Stat) -> int {
        if self.is_character(id) {
            base_of(self.char_of(id), stat)
        } else {
            0
        }
    }

    /// The value of `stat` of `id`: the base plus the bonuses of everything it
    /// has equipped.
    pub open spec fn stat(self, id: u32, stat: Stat) -> int {
        self.base_stat(id, stat) + self.bonus_sum(self.entities.len() as int, id, stat)
    }

    /// The value of `stat` of `id` fits an `i32`.
    pub open spec fn stat_fits(self, id: u32, stat: Stat) -> bool {
        i32::MIN <= self.stat(id, stat) <= i32::MAX
    }

    pub proof fn lemma_bonus_sum_bound(self, n: int, owner: u32, stat: Stat)
        requires
            0 <= n <= self.entities.len(),
            self.wf(),
        ensures
            -n * 0x8000_0000 <= self.bonus_sum(n, owner, stat) <= n * 0x8000_0000,
        decreases n,
    {
        if n > 0 {
            self.lemma_bonus_sum_bound(n - 1, owner, stat);
            let ix = self.entities[n - 1].1;
            assert(self.indexes_wf(ix));
        }
    }

    /// Base statistics and equipment bonuses are small, and there are not too
    /// many entities: every statistic then fits an `i32` with room to spare.
    pub open spec fn stats_bounded(self) -> bool {
        &&& self.entities.len() <= 4 * MAX_ENTITIES
        &&& forall|k: int| 0 <= k < self.equipments.len() ==> {
            let e = #[trigger] self.equipments[k];
            &&& -MAX_BONUS <= e.max_hp_bonus <= MAX_BONUS
            &&& -MAX_BONUS <= e.defense_bonus <= MAX_BONUS
            &&& -MAX_BONUS <= e.power_bonus <= MAX_BONUS
        }
        &&& forall|k: int| 0 <= k < self.characters.len() ==> {
            let c = #[trigger] self.characters[k];
            &&& -MAX_BASE_STAT <= c.base_max_hp <= MAX_BASE_STAT
            &&& -MAX_BASE_STAT <= c.base_defense <= MAX_BASE_STAT
            &&& -MAX_BASE_STAT <= c.base_power <= MAX_BASE_STAT
        }
    }

    pub proof fn lemma_bonus_sum_small(self, n: int, owner: u32, stat: Stat)
        requires
            self.wf(),
            self.stats_bounded(),
            0 <= n <= self.entities.len(),
        ensures
            -n * MAX_BONUS <= self.bonus_sum(n, owner, stat) <= n * MAX_BONUS,
        decreases n,
    {
        if n > 0 {
            self.lemma_bonus_sum_small(n - 1, owner, stat);
            let ix = self.entities[n - 1].1;
            assert(self.indexes_wf(ix));
            if self.equipped_by(ix, owner) {
                let e = self.equipments[ix.equipment.unwrap() as int];
                assert(-MAX_BONUS <= e.max_hp_bonus <= MAX_BONUS);
            }
        }
    }

    /// Bounded statistics fit comfortably.
    pub proof fn lemma_stat_small(self, id: u32, stat: Stat)
        requires
            self.wf(),
            self.stats_bounded(),
        ensures
            -0x2000_0000 <= self.stat(id, stat) <= 0x2000_0000,
            self.stat_fits(id, stat),
    {
        let n = self.entities.len() as int;
        self.lemma_bonus_sum_small(n, id, stat);
        assert(n * MAX_BONUS <= 4 * MAX_ENTITIES * MAX_BONUS) by (nonlinear_arith)
            requires
                n <= 4 * MAX_ENTITIES,
                n >= 0,
        ;
        if self.is_character(id) {
            self.lemma_wf_indexes(id);
            let c = self.char_of(id);
            assert(-MAX_BASE_STAT <= c.base_max_hp <= MAX_BASE_STAT);
        }
    }

    /// The entity with indexes `ix` is an item of the player equipped in `slot`.
    pub open spec fn fills_slot(self, ix: Indexes, slot: Slot) -> bool {
        &&& ix.symbol is Some
        &&& ix.map_object is Some
        &&& ix.item is Some
        &&& ix.equipment is Some
        &&& self.items[ix.item.unwrap() as int].owner == self.player.id
        &&& self.equipments[ix.equipment.unwrap() as int].equipped
        &&& self.equipments[ix.equipment.unwrap() as int].slot == slot
    }

    /// `r` is the first entity (by id) that fills `slot`, or `None` when there
    /// is none.
    pub open spec fn is_equipped_in_slot(self, slot: Slot, r: Option<u32>) -> bool {
        match r {
            Some(id) => exists|p: int|
                0 <= p < self.entities.len() && #[trigger] self.entities[p].0 == id
                    && self.fills_slot(self.entities[p].1, slot) && forall|q: int|
                    0 <= q < p ==> !self.fills_slot(#[trigger] self.entities[q].1, slot),
            None => forall|p: int|
                0 <= p < self.entities.len() ==> !self.fills_slot(
                    #[trigger] self.entities[p].1,
                    slot,
                ),
        }
    }

    /// The entity with indexes `ix` blocks the way at `(x, y)`.
    pub open spec fn blocks_at(self, ix: Indexes, x: int, y: int) -> bool {
        &&& ix.symbol is Some
        &&& ix.map_object is Some
        &&& self.map_objects[ix.map_object.unwrap() as int].block
        &&& self.symbols[ix.symbol.unwrap() as int].x == x
        &&& self.symbols[ix.symbol.unwrap() as int].y == y
    }

    /// Nothing can move to `(x, y)`: a wall, or a blocking object stands there.
    pub open spec fn is_blocked(self, x: int, y: int) -> bool {
        ||| self.cell_at(x, y).block
        ||| exists|p: int|
            0 <= p < self.entities.len() && self.blocks_at(#[trigger] self.entities[p].1, x, y)
    }

    /// The world with one more message in the log, held by a new entity.
    pub open spec fn with_log(self, text: Seq<char>, color: Color) -> WorldView {
        let id = (self.id_count + 1) as u32;
        WorldView {
            id_count: id,
            entities: self.entities.push((id, log_indexes(self.log.len() as int))),
            log: self.log.push((text, color)),
            ..self
        }
    }

    /// The world with the messages `msgs` appended to the log, in order.
    pub open spec fn with_logs(self, msgs: Seq<(Seq<char>, Color)>) -> WorldView
        decreases msgs.len(),
    {
        if msgs.len() == 0 {
            self
        } else {
            self.with_logs(msgs.drop_last()).with_log(msgs.last().0, msgs.last().1)
        }
    }

    /// The world with one more dialog on top, held by a new entity.
    pub open spec fn with_dialog(self, d: DialogView) -> WorldView {
        let id = (self.id_count + 1) as u32;
        WorldView {
            id_count: id,
            entities: self.entities.push((id, dialog_indexes(self.dialogs.len() as int))),
            dialogs: self.dialogs.push(d),
            ..self
        }
    }

    /// Logging keeps the invariant and changes no statistic, no component and
    /// no existing entity.
    pub proof fn lemma_with_log(self, text: Seq<char>, color: Color)
        requires
            self.wf(),
            self.id_count < u32::MAX,
        ensures
            self.with_log(text, color).wf(),
            forall|id: u32, s: Stat| #[trigger] self.with_log(text, color).stat(id, s) == self.stat(id, s),
            forall|id: u32| self.has(id) ==> #[trigger] self.with_log(text, color).indexes_of(id) == self.indexes_of(id),
            forall|id: u32| #[trigger] self.with_log(text, color).has(id) ==> self.has(id) || id == self.id_count + 1,
            !self.has((self.id_count + 1) as u32),
    {
        let post = self.with_log(text, color);
        let n = self.entities.len();
        assert(post.entities.subrange(0, n as int) =~= self.entities);
        assert forall|i: int, j: int| 0 <= i < j < post.entities.len() implies
            #[trigger] post.entities[i].0 < #[trigger] post.entities[j].0 by {
            if j == n {
                assert(self.entities[i].0 <= self.id_count);
            }
        }
        assert forall|i: int| 0 <= i < post.entities.len() implies
            post.indexes_wf(#[trigger] post.entities[i].1) by {
            if i < n {
                assert(self.indexes_wf(self.entities[i].1));
            }
        }
        assert forall|id: u32, s: Stat| #[trigger] post.stat(id, s) == self.stat(id, s) by {
            self.lemma_bonus_sum_prefix(post, id, s, n as int);
            if self.has(id) {
                self.lemma_has_appended(post, id);
            } else if post.has(id) {
                let p = post.pos_of(id);
                if p < n {
                    assert(self.entities[p] == post.entities[p]);
                }
            }
        }
        assert forall|id: u32| self.has(id) implies #[trigger] post.indexes_of(id) == self.indexes_of(id) by {
            self.lemma_has_appended(post, id);
        }
        assert forall|id: u32| #[trigger] post.has(id) implies self.has(id) || id == self.id_count + 1 by {
            let p = post.pos_of(id);
            if p < n {
                assert(self.entities[p] == post.entities[p]);
            }
        }
        if self.has((self.id_count + 1) as u32) {
            let p = self.pos_of((self.id_count + 1) as u32);
            assert(self.entities[p].0 <= self.id_count);
        }
    }

    /// Two worlds with the same entities agree on every entity's indexes.
    pub proof fn lemma_same_entities(self, other: WorldView)
        requires
            self.entities == other.entities,
        ensures
            forall|id: u32| #[trigger] other.indexes_of(id) == self.indexes_of(id),
            forall|id: u32| #[trigger] other.has(id) == self.has(id),
            forall|id: u32| #[trigger] other.pos_of(id) == self.pos_of(id),
    {
    }

    /// An entity of `self` keeps its indexes when entities are appended.
    pub proof fn lemma_has_appended(self, post: WorldView, id: u32)
        requires
            self.ids_wf(),
            post.ids_wf(),
            self.entities.len() <= post.entities.len(),
            post.entities.subrange(0, self.entities.len() as int) == self.entities,
            self.has(id),
        ensures
            post.has(id),
            post.indexes_of(id) == self.indexes_of(id),
            post.pos_of(id) == self.pos_of(id),
    {
        let p = self.pos_of(id);
        self.lemma_indexes_at(p);
        assert(post.entities[p] == self.entities[p]);
        post.lemma_indexes_at(p);
    }

    /// Entities appended without equipped items add no bonus.
    pub proof fn lemma_bonus_sum_prefix(self, post: WorldView, owner: u32, s: Stat, n: int)
        requires
            0 <= n <= self.entities.len(),
            self.entities.len() <= post.entities.len(),
            post.entities.subrange(0, self.entities.len() as int) == self.entities,
            post.items == self.items,
            post.equipments == self.equipments,
            forall|i: int| self.entities.len() <= i < post.entities.len() ==> (#[trigger] post.entities[i]).1.item is None,
            n == self.entities.len(),
        ensures
            post.bonus_sum(post.entities.len() as int, owner, s) == self.bonus_sum(n, owner, s),
    {
        self.lemma_bonus_sum_prefix_rec(post, owner, s, post.entities.len() as int);
    }

    /// Bonuses depend only on the entities, the items and the equipment.
    pub proof fn lemma_bonus_sum_frame(self, other: WorldView, owner: u32, s: Stat, n: int)
        requires
            self.entities == other.entities,
            self.items == other.items,
            self.equipments == other.equipments,
        ensures
            other.bonus_sum(n, owner, s) == self.bonus_sum(n, owner, s),
        decreases n,
    {
        if n > 0 {
            self.lemma_bonus_sum_frame(other, owner, s, n - 1);
        }
    }

    /// Statistics depend only on the entities, the items, the equipment and
    /// the base statistics of the characters.
    pub proof fn lemma_stat_frame(self, other: WorldView)
        requires
            self.wf(),
            self.entities == other.entities,
            self.items == other.items,
            self.equipments == other.equipments,
            self.characters.len() == other.characters.len(),
            forall|k: int|
                0 <= k < self.characters.len() ==> {
                    let a = #[trigger] other.characters[k];
                    let b = self.characters[k];
                    &&& a.base_max_hp == b.base_max_hp
                    &&& a.base_defense == b.base_defense
                    &&& a.base_power == b.base_power
                },
        ensures
            forall|id: u32, s: Stat| #[trigger] other.stat(id, s) == self.stat(id, s),
    {
        assert forall|id: u32, s: Stat| #[trigger] other.stat(id, s) == self.stat(id, s) by {
            self.lemma_bonus_sum_frame(other, id, s, self.entities.len() as int);
            if self.is_character(id) {
                self.lemma_wf_indexes(id);
                let k = self.ix(id).character.unwrap() as int;
                assert(other.characters[k].base_power == self.characters[k].base_power);
            }
        }
    }

    pub proof fn lemma_bonus_sum_prefix_rec(self, post: WorldView, owner: u32, s: Stat, m: int)
        requires
            0 <= m <= post.entities.len(),
            self.entities.len() <= post.entities.len(),
            post.entities.subrange(0, self.entities.len() as int) == self.entities,
            post.items == self.items,
            post.equipments == self.equipments,
            forall|i: int| self.entities.len() <= i < post.entities.len() ==> (#[trigger] post.entities[i]).1.item is None,
        ensures
            post.bonus_sum(m, owner, s) == self.bonus_sum(
                if m <= self.entities.len() { m } else { self.entities.len() as int },
                owner,
                s,
            ),
        decreases m,
    {
        if m > 0 {
            self.lemma_bonus_sum_prefix_rec(post, owner, s, m - 1);
            if m <= self.entities.len() {
                assert(post.entities[m - 1] == self.entities[m - 1]);
            } else {
                assert(post.entities[m - 1].1.item is None);
            }
        }
    }
}

/// `r` is the id of the first entity of `s` that satisfies `pred`, or `None`
/// when none does.
pub open spec fn is_first(s: Seq<(u32, Indexes)>, pred: spec_fn((u32, Indexes)) -> bool, r: Option<u32>) -> bool {
    match r {
        Some(id) => exists|p: int|
            0 <= p < s.len() && #[trigger] s[p].0 == id && pred(s[p]) && forall|q: int|
                0 <= q < p ==> !pred(#[trigger] s[q]),
        None => forall|p: int| 0 <= p < s.len() ==> !pred(#[trigger] s[p]),
    }
}

/// The id of the first entity of `s` that satisfies `pred`.
pub open spec fn first(s: Seq<(u32, Indexes)>, pred: spec_fn((u32, Indexes)) -> bool) -> Option<u32> {
    choose|r: Option<u32>| is_first(s, pred, r)
}

/// Searching from position `i` on, past entities that fail `pred`, finds the
/// first that satisfies it.
proof fn lemma_first_from(s: Seq<(u32, Indexes)>, pred: spec_fn((u32, Indexes)) -> bool, i: int)
    requires
        0 <= i <= s.len(),
        forall|q: int| 0 <= q < i ==> !pred(#[trigger] s[q]),
        exists|p: int| i <= p < s.len() && pred(#[trigger] s[p]),
    ensures
        is_first(s, pred, first(s, pred)),
    decreases s.len() - i,
{
    if pred(s[i]) {
        assert(is_first(s, pred, Some(s[i].0)));
    } else {
        lemma_first_from(s, pred, i + 1);
    }
}

/// There is always a first entity satisfying `pred`, or none satisfies it.
pub proof fn lemma_first_exists(s: Seq<(u32, Indexes)>, pred: spec_fn((u32, Indexes)) -> bool)
    ensures
        is_first(s, pred, first(s, pred)),
{
    if exists|p: int| 0 <= p < s.len() && pred(#[trigger] s[p]) {
        lemma_first_from(s, pred, 0);
    } else {
        assert(is_first(s, pred, None));
    }
}

pub proof fn lemma_first(s: Seq<(u32, Indexes)>, pred: spec_fn((u32, Indexes)) -> bool, r: Option<u32>)
    requires
        is_first(s, pred, r),
    ensures
        first(s, pred) == r,
{
    let f = first(s, pred);
    assert(is_first(s, pred, f));
    match (f, r) {
        (Some(a), Some(b)) => {
            let pa = choose|p: int| 0 <= p < s.len() && #[trigger] s[p].0 == a && pred(s[p]) && forall|q: int| 0 <= q < p ==> !pred(#[trigger] s[q]);
            let pb = choose|p: int| 0 <= p < s.len() && #[trigger] s[p].0 == b && pred(s[p]) && forall|q: int| 0 <= q < p ==> !pred(#[trigger] s[q]);
            if pa < pb {
                assert(!pred(s[pa]));
            } else if pb < pa {
                assert(!pred(s[pb]));
            }
        },
        (Some(a), None) => {
            let pa = choose|p: int| 0 <= p < s.len() && #[trigger] s[p].0 == a && pred(s[p]) && forall|q: int| 0 <= q < p ==> !pred(#[trigger] s[q]);
            assert(!pred(s[pa]));
        },
        (None, Some(b)) => {
            let pb = choose|p: int| 0 <= p < s.len() && #[trigger] s[p].0 == b && pred(s[p]) && forall|q: int| 0 <= q < p ==> !pred(#[trigger] s[q]);
            assert(!pred(s[pb]));
        },
        (None, None) => {},
    }
}

/// Bound on hit points for the fights of a turn to stay within `i32`.
pub const MAX_HP_VALUE: i32 = 0x4000_0000;

/// Bound on the size of a stack of ammunition.
pub const MAX_AMMO: u32 = 0x4000_0000;

/// Bound on experience for its sums in a turn to stay within `i32`.
pub const MAX_XP_VALUE: i32 = 0x4000;

impl WorldView {
    /// Hit points and experience are small enough for a turn of fights.
    pub open spec fn vitals_bounded(self) -> bool {
        forall|k: int| 0 <= k < self.characters.len() ==> {
            let c = #[trigger] self.characters[k];
            &&& -MAX_HP_VALUE <= c.hp <= MAX_HP_VALUE
            &&& -MAX_XP_VALUE <= c.xp <= MAX_XP_VALUE
        }
    }

    /// The numbers of the world are small enough for a turn: every sum and
    /// difference a turn computes fits an `i32`, and new ids are available.
    pub open spec fn fit_for_turn(self) -> bool {
        &&& self.stats_bounded()
        &&& self.vitals_bounded()
        &&& self.entities.len() <= MAX_ENTITIES
        &&& self.id_count + 3 * MAX_ENTITIES <= u32::MAX
        &&& forall|k: int| 0 <= k < self.ammos.len() ==> (#[trigger] self.ammos[k]).count <= MAX_AMMO
    }
}

impl WorldView {
    /// The world without the entity `id` (its components stay where they are).
    pub open spec fn without(self, id: u32) -> WorldView {
        if self.has(id) {
            WorldView { entities: self.entities.remove(self.pos_of(id)), ..self }
        } else {
            self
        }
    }

    /// Removing an entity keeps the invariant; the entity is gone, and every
    /// other entity is there as it was, with the same components.
    pub proof fn lemma_without(self, id: u32)
        requires
            self.wf(),
        ensures
            self.without(id).wf(),
            !self.without(id).has(id),
            forall|j: u32| j != id ==> #[trigger] self.without(id).indexes_of(j) == self.indexes_of(j),
            forall|j: u32| j != id ==> #[trigger] self.without(id).has(j) == self.has(j),
    {
        let post = self.without(id);
        if self.has(id) {
            let p = self.pos_of(id);
            self.lemma_indexes_at(p);
            let n = self.entities.len();
            assert forall|i: int| 0 <= i < post.entities.len() implies post.entities[i] == self.entities[if i < p { i } else { i + 1 }] by {}
            assert forall|i: int, j: int| 0 <= i < j < post.entities.len() implies
                #[trigger] post.entities[i].0 < #[trigger] post.entities[j].0 by {
                let a = if i < p { i } else { i + 1 };
                let b = if j < p { j } else { j + 1 };
                assert(self.entities[a].0 < self.entities[b].0);
            }
            assert forall|i: int| 0 <= i < post.entities.len() implies 1 <= #[trigger] post.entities[i].0 <= post.id_count by {
                let a = if i < p { i } else { i + 1 };
                assert(1 <= self.entities[a].0 <= self.id_count);
            }
            assert forall|i: int| 0 <= i < post.entities.len() implies post.indexes_wf(#[trigger] post.entities[i].1) by {
                let a = if i < p { i } else { i + 1 };
                assert(self.indexes_wf(self.entities[a].1));
            }
            if post.has(id) {
                let q = post.pos_of(id);
                let a = if q < p { q } else { q + 1 };
                assert(self.entities[a].0 == id);
                self.lemma_indexes_at(a);
            }
            assert forall|j: u32| j != id implies #[trigger] post.has(j) == self.has(j) by {
                if self.has(j) {
                    let q = self.pos_of(j);
                    self.lemma_indexes_at(q);
                    let b = if q < p { q } else { q - 1 };
                    assert(post.entities[b] == self.entities[q]);
                }
                if post.has(j) {
                    let q = post.pos_of(j);
                    let a = if q < p { q } else { q + 1 };
                    assert(self.entities[a] == post.entities[q]);
                }
            }
            assert forall|j: u32| j != id implies #[trigger] post.indexes_of(j) == self.indexes_of(j) by {
                if self.has(j) {
                    let q = self.pos_of(j);
                    self.lemma_indexes_at(q);
                    let b = if q < p { q } else { q - 1 };
                    assert(post.entities[b] == self.entities[q]);
                    post.lemma_indexes_at(b);
                }
            }
        }
    }
}

/// How many of the first `n` items belong to `owner`.
pub open spec fn count_owned(items: Seq<OwnedItem>, owner: u32, n: int) -> int
    decreases n,
{
    if n <= 0 {
        0
    } else {
        count_owned(items, owner, n - 1) + if items[n - 1].owner == owner { 1int } else { 0 }
    }
}

pub proof fn lemma_count_owned_bound(items: Seq<OwnedItem>, owner: u32, n: int)
    requires
        0 <= n,
    ensures
        0 <= count_owned(items, owner, n) <= n,
    decreases n,
{
    if n > 0 {
        lemma_count_owned_bound(items, owner, n - 1);
    }
}

/// Changing one item changes the count of an owner's items by at most one,
/// and not at all when the item lies beyond the first `n`.
pub proof fn lemma_count_owned_update(items: Seq<OwnedItem>, owner: u32, n: int, i: int, v: OwnedItem)
    requires
        0 <= n <= items.len(),
        0 <= i < items.len(),
    ensures
        count_owned(items.update(i, v), owner, n) <= count_owned(items, owner, n) + (if i < n { 1int } else { 0 }),
    decreases n,
{
    if n > 0 {
        lemma_count_owned_update(items, owner, n - 1, i, v);
    }
}

impl Default for World {
    fn default() -> (w: Self)
        ensures
            w@.is_empty_world(),
            w@.wf(),
    {
        let w = World {
            id_count: 0,
            entity_indexes: Vec::new(),
            player: Player::default(),
            must_be_destroyed: false,
            symbols: Vec::new(),
            map: Vec::new(),
            map_objects: Vec::new(),
            characters: Vec::new(),
            ais: Vec::new(),
            items: Vec::new(),
            equipments: Vec::new(),
            ammos: Vec::new(),
            log: Vec::new(),
            dialogs: Vec::new(),
        };
        assert(w@.player.look_at == seq![None::<u32>, None, None]);
        w
    }
}

/// A fresh builder for an entity without any component.
pub fn new_entity() -> (b: entity::Builder)
    ensures
        b@.is_empty(),
{
    entity::Builder::new()
}

/// The component vectors of a world hold no more than `usize::MAX` items.
pub proof fn lemma_len_bounds(world: &World)
    ensures
        world@.entities.len() <= usize::MAX,
        world@.symbols.len() <= usize::MAX,
        world@.map.len() <= usize::MAX,
        world@.map_objects.len() <= usize::MAX,
        world@.characters.len() <= usize::MAX,
        world@.ais.len() <= usize::MAX,
        world@.items.len() <= usize::MAX,
        world@.equipments.len() <= usize::MAX,
        world@.ammos.len() <= usize::MAX,
        world@.log.len() <= usize::MAX,
        world@.dialogs.len() <= usize::MAX,
        world@.lens_ok(),
{
    assert(world.entity_indexes.len() == world.entity_indexes@.len());
    assert(world.symbols.len() == world.symbols@.len());
    assert(world.map.len() == world.map@.len());
    assert(world.map_objects.len() == world.map_objects@.len());
    assert(world.characters.len() == world.characters@.len());
    assert(world.ais.len() == world.ais@.len());
    assert(world.items.len() == world.items@.len());
    assert(world.equipments.len() == world.equipments@.len());
    assert(world.ammos.len() == world.ammos@.len());
    assert(world.log.len() == world.log@.len());
    assert(world.dialogs.len() == world.dialogs@.len());
}

impl World {
    /// Whether the world is well formed: ids in increasing order, component
    /// indexes in bounds, every symbol on the map (as a world read from a
    /// saved game may not be).
    pub fn check_wf(&self) -> (r: bool)
        ensures
            r == self@.wf(),
    {
        let ghost w = self@;
        let mut i: usize = 0;
        while i < self.entity_indexes.len()
            invariant
                w == self@,
                i <= w.entities.len(),
                forall|a: int, b: int| #![trigger w.entities[a], w.entities[b]] 0 <= a < b < i ==> w.entities[a].0 < w.entities[b].0,
                forall|a: int| 0 <= a < i ==> 1 <= #[trigger] w.entities[a].0 <= w.id_count,
                forall|a: int| 0 <= a < i ==> w.indexes_wf(#[trigger] w.entities[a].1),
            decreases w.entities.len() - i,
        {
            let (id, ix) = self.entity_indexes[i];
            if id < 1 || id > self.id_count {
                return false;
            }
            if i > 0 && self.entity_indexes[i - 1].0 >= id {
                proof {
                    assert(!w.ids_wf()) by {
                        assert(w.entities[i - 1].0 >= w.entities[i as int].0);
                    }
                }
                return false;
            }
            let ok = (match ix.symbol { Some(k) => k < self.symbols.len(), None => true })
                && (match ix.map_cell { Some(k) => k < self.map.len(), None => true })
                && (match ix.map_object { Some(k) => k < self.map_objects.len(), None => true })
                && (match ix.character { Some(k) => k < self.characters.len(), None => true })
                && (match ix.ai { Some(k) => k < self.ais.len(), None => true })
                && (match ix.item { Some(k) => k < self.items.len(), None => true })
                && (match ix.equipment { Some(k) => k < self.equipments.len(), None => true })
                && (match ix.ammo { Some(k) => k < self.ammos.len(), None => true })
                && (match ix.log_message { Some(k) => k < self.log.len(), None => true });
            if !ok {
                proof {
                    assert(!w.indexes_wf(w.entities[i as int].1));
                }
                return false;
            }
            proof {
                assert forall|a: int, b: int| #![trigger w.entities[a], w.entities[b]] 0 <= a < b < i + 1 implies w.entities[a].0
                    < w.entities[b].0 by {
                    if b == i && a < i - 1 {
                        assert(w.entities[a].0 < w.entities[i - 1].0);
                    }
                }
            }
            i = i + 1;
        }
        let mut k: usize = 0;
        while k < self.symbols.len()
            invariant
                w == self@,
                k <= w.symbols.len(),
                forall|a: int| 0 <= a < k ==> on_grid(#[trigger] w.symbols[a].x as int, w.symbols[a].y as int),
            decreases w.symbols.len() - k,
        {
            let s = self.symbols[k];
            if !check_on_grid(s.x, s.y) {
                return false;
            }
            k = k + 1;
        }
        true
    }

    /// Whether the numbers of the world are small enough for a turn.
    pub fn check_fit_for_turn(&self) -> (r: bool)
        ensures
            r == self@.fit_for_turn(),
    {
        let ghost w = self@;
        if self.entity_indexes.len() > MAX_ENTITIES {
            return false;
        }
        if self.id_count as u64 + 3 * MAX_ENTITIES as u64 > u32::MAX as u64 {
            return false;
        }
        let mut i: usize = 0;
        while i < self.equipments.len()
            invariant
                w == self@,
                i <= w.equipments.len(),
                forall|k: int| 0 <= k < i ==> {
                    let e = #[trigger] w.equipments[k];
                    &&& -MAX_BONUS <= e.max_hp_bonus <= MAX_BONUS
                    &&& -MAX_BONUS <= e.defense_bonus <= MAX_BONUS
                    &&& -MAX_BONUS <= e.power_bonus <= MAX_BONUS
                },
            decreases w.equipments.len() - i,
        {
            let e = self.equipments[i];
            if !(-MAX_BONUS <= e.max_hp_bonus && e.max_hp_bonus <= MAX_BONUS && -MAX_BONUS <= e.defense_bonus
                && e.defense_bonus <= MAX_BONUS && -MAX_BONUS <= e.power_bonus && e.power_bonus <= MAX_BONUS) {
                proof {
                    assert(!w.stats_bounded()) by {
                        let e2 = w.equipments[i as int];
                    }
                }
                return false;
            }
            i = i + 1;
        }
        let mut j: usize = 0;
        while j < self.characters.len()
            invariant
                w == self@,
                j <= w.characters.len(),
                forall|k: int| 0 <= k < j ==> {
                    let c = #[trigger] w.characters[k];
                    &&& -MAX_BASE_STAT <= c.base_max_hp <= MAX_BASE_STAT
                    &&& -MAX_BASE_STAT <= c.base_defense <= MAX_BASE_STAT
                    &&& -MAX_BASE_STAT <= c.base_power <= MAX_BASE_STAT
                    &&& -MAX_HP_VALUE <= c.hp <= MAX_HP_VALUE
                    &&& -MAX_XP_VALUE <= c.xp <= MAX_XP_VALUE
                },
            decreases w.characters.len() - j,
        {
            let c = self.characters[j];
            let base_ok = -MAX_BASE_STAT <= c.base_max_hp && c.base_max_hp <= MAX_BASE_STAT && -MAX_BASE_STAT
                <= c.base_defense && c.base_defense <= MAX_BASE_STAT && -MAX_BASE_STAT <= c.base_power
                && c.base_power <= MAX_BASE_STAT;
            let vitals_ok = -MAX_HP_VALUE <= c.hp && c.hp <= MAX_HP_VALUE && -MAX_XP_VALUE <= c.xp && c.xp
                <= MAX_XP_VALUE;
            if !base_ok {
                proof {
                    assert(!w.stats_bounded()) by {
                        let c2 = w.characters[j as int];
                    }
                }
                return false;
            }
            if !vitals_ok {
                proof {
                    assert(!w.vitals_bounded()) by {
                        let c2 = w.characters[j as int];
                    }
                }
                return false;
            }
            j = j + 1;
        }
        let mut k: usize = 0;
        while k < self.ammos.len()
            invariant
                w == self@,
                k <= w.ammos.len(),
                forall|a: int| 0 <= a < k ==> (#[trigger] w.ammos[a]).count <= MAX_AMMO,
            decreases w.ammos.len() - k,
        {
            if self.ammos[k].count > MAX_AMMO {
                proof {
                    assert(w.ammos[k as int].count > MAX_AMMO);
                }
                return false;
            }
            k = k + 1;
        }
        true
    }
}

impl World {
    /// Removes the entity `id`; its components stay where they are.
    pub fn remove_entity(&mut self, id: u32)
        requires
            old(self)@.wf(),
        ensures
            final(self)@ == old(self)@.without(id),
            final(self)@.wf(),
    {
        proof {
            self@.lemma_without(id);
        }
        match self.find_pos(id) {
            Some(p) => {
                self.entity_indexes.remove(p);
            },
            None => {},
        }
    }

    /// How many items belong to `owner`.
    pub fn count_owned(&self, owner: u32) -> (r: usize)
        ensures
            r == count_owned(self@.items, owner, self@.items.len() as int),
    {
        let mut r: usize = 0;
        let mut i: usize = 0;
        while i < self.items.len()
            invariant
                i <= self@.items.len(),
                r == count_owned(self@.items, owner, i as int),
            decreases self@.items.len() - i,
        {
            proof {
                lemma_count_owned_bound(self@.items, owner, i as int);
            }
            if self.items[i].owner == owner {
                r = r + 1;
            }
            i = i + 1;
        }
        r
    }

    /// Finds where the entity `id` stands in `entity_indexes`.
    pub fn find_pos(&self, id: u32) -> (r: Option<usize>)
        requires
            self@.ids_wf(),
        ensures
            r is None <==> !self@.has(id),
            r matches Some(p) ==> p == self@.pos_of(id) && p < self@.entities.len()
                && self@.entities[p as int].0 == id,
    {
        let mut i: usize = 0;
        while i < self.entity_indexes.len()
            invariant
                self@.ids_wf(),
                i <= self@.entities.len(),
                forall|j: int| 0 <= j < i ==> #[trigger] self@.entities[j].0 != id,
            decreases self@.entities.len() - i,
        {
            if self.entity_indexes[i].0 == id {
                proof {
                    self@.lemma_indexes_at(i as int);
                }
                return Some(i);
            }
            i = i + 1;
        }
        None
    }

    /// The component indexes of the entity `id`, if it exists.
    pub fn get_indexes(&self, id: u32) -> (r: Option<Indexes>)
        requires
            self@.ids_wf(),
        ensures
            r == self@.indexes_of(id),
    {
        match self.find_pos(id) {
            Some(p) => Some(self.entity_indexes[p].1),
            None => None,
        }
    }

    /// The symbol, name, fighter and mind of the character `id`.
    pub fn get_character(&self, id: u32) -> (r: Option<(&Symbol, &MapObject, &Character, &AiOption)>)
        requires
            self@.wf(),
        ensures
            r is Some <==> self@.is_character(id),
            r matches Some((s, m, c, a)) ==> *s == self@.sym_of(id) && m@ == self@.mobj_of(id)
                && *c == self@.char_of(id) && *a == self@.ai_of(id),
    {
        match self.get_indexes(id) {
            Some(ix) => {
                proof {
                    self@.lemma_wf_indexes(id);
                }
                match (ix.symbol, ix.map_object, ix.character, ix.ai) {
                    (Some(si), Some(moi), Some(ci), Some(aii)) => Some(
                        (&self.symbols[si], &self.map_objects[moi], &self.characters[ci], &self.ais[aii]),
                    ),
                    _ => None,
                }
            },
            None => None,
        }
    }

    /// The symbol, name, fighter (if any) of the entity `id`, with the map cell
    /// it stands on.
    pub fn get_map_obj(&self, id: u32) -> (r: Option<(&Symbol, &MapObject, Option<&Character>, &MapCell)>)
        requires
            self@.wf(),
            self@.is_map_obj(id) ==> self@.map_ready(),
        ensures
            r is Some <==> self@.is_map_obj(id),
            r matches Some((s, m, c, cell)) ==> {
                &&& *s == self@.sym_of(id)
                &&& m@ == self@.mobj_of(id)
                &&& (c matches Some(ch) ==> self@.ix(id).character is Some && *ch == self@.char_of(id))
                &&& (c is None ==> self@.ix(id).character is None)
                &&& *cell == self@.cell_at(s.x as int, s.y as int)
            },
    {
        match self.get_indexes(id) {
            Some(ix) => {
                proof {
                    self@.lemma_wf_indexes(id);
                }
                match (ix.symbol, ix.map_object) {
                    (Some(si), Some(moi)) => {
                        let symbol = &self.symbols[si];
                        proof {
                            self@.lemma_symbol_on_grid(si as int);
                        }
                        let index_in_map = (symbol.y * cfg::MAP_WIDTH + symbol.x) as usize;
                        let ch = match ix.character {
                            Some(ci) => Some(&self.characters[ci]),
                            None => None,
                        };
                        Some((symbol, &self.map_objects[moi], ch, &self.map[index_in_map]))
                    },
                    _ => None,
                }
            },
            None => None,
        }
    }

    /// The symbol, name and item of the item `id`, with its equipment and
    /// ammunition if it has them.
    pub fn get_item(&self, id: u32) -> (r: Option<(&Symbol, &MapObject, &OwnedItem, Option<&Equipment>, Option<&Ammo>)>)
        requires
            self@.wf(),
        ensures
            r is Some <==> self@.is_item(id),
            r matches Some((s, m, it, e, a)) ==> {
                &&& *s == self@.sym_of(id)
                &&& m@ == self@.mobj_of(id)
                &&& *it == self@.item_of(id)
                &&& (match e { Some(e) => self@.eqp_of(id) == Some(*e), None => self@.eqp_of(id) is None })
                &&& (match a { Some(a) => self@.ammo_of(id) == Some(*a), None => self@.ammo_of(id) is None })
            },
    {
        match self.get_indexes(id) {
            Some(ix) => {
                proof {
                    self@.lemma_wf_indexes(id);
                }
                match (ix.symbol, ix.map_object, ix.item) {
                    (Some(si), Some(moi), Some(ii)) => {
                        let e = match ix.equipment {
                            Some(ei) => Some(&self.equipments[ei]),
                            None => None,
                        };
                        let a = match ix.ammo {
                            Some(ai) => Some(&self.ammos[ai]),
                            None => None,
                        };
                        Some((&self.symbols[si], &self.map_objects[moi], &self.items[ii], e, a))
                    },
                    _ => None,
                }
            },
            None => None,
        }
    }

    /// Whether the player exists as a character and is alive.
    pub fn player_is_alive(&self) -> (r: bool)
        requires
            self@.wf(),
        ensures
            r == self@.player_alive(),
    {
        match self.get_character(self.player.id) {
            Some((_, _, ch, _)) => ch.alive,
            None => false,
        }
    }

    /// The player's fighter.
    pub fn player_char(&self) -> (c: &Character)
        requires
            self@.wf(),
            self@.is_character(self@.player.id),
        ensures
            *c == self@.char_of(self@.player.id),
    {
        match self.get_character(self.player.id) {
            Some((_, _, ch, _)) => ch,
            None => {
                proof {
                    assert(false);
                }
                &self.characters[0]
            },
        }
    }

    /// The player's symbol.
    pub fn player_sym(&self) -> (s: &Symbol)
        requires
            self@.wf(),
            self@.is_character(self@.player.id),
        ensures
            *s == self@.sym_of(self@.player.id),
    {
        match self.get_character(self.player.id) {
            Some((sym, _, _, _)) => sym,
            None => {
                proof {
                    assert(false);
                }
                &self.symbols[0]
            },
        }
    }

    /// Whether the entity `id` stands in the player's field of view.
    pub fn check_fov(&self, id: u32) -> (r: bool)
        requires
            self@.wf(),
            self@.map_ready(),
            self@.is_map_obj(id),
        ensures
            r == self@.cell_at(self@.sym_of(id).x as int, self@.sym_of(id).y as int).in_fov,
    {
        match self.get_map_obj(id) {
            Some((_, _, _, cell)) => cell.in_fov,
            None => {
                proof {
                    assert(false);
                }
                false
            },
        }
    }

    /// Sums the bonuses to `stat` of the equipment that `owner` wears.
    fn equipped_bonus(&self, owner: u32, stat: Stat) -> (r: i128)
        requires
            self@.wf(),
        ensures
            r == self@.bonus_sum(self@.entities.len() as int, owner, stat),
    {
        let mut sum: i128 = 0;
        let mut i: usize = 0;
        while i < self.entity_indexes.len()
            invariant
                self@.wf(),
                i <= self@.entities.len(),
                sum == self@.bonus_sum(i as int, owner, stat),
            decreases self@.entities.len() - i,
        {
            proof {
                self@.lemma_bonus_sum_bound(i as int + 1, owner, stat);
                assert(self@.indexes_wf(self@.entities[i as int].1));
                assert((i as int + 1) * 0x8000_0000 <= 0x1_0000_0000_0000_0000 * 0x8000_0000) by (nonlinear_arith)
                    requires
                        i as int + 1 <= 0x1_0000_0000_0000_0000,
                ;
            }
            let ix = self.entity_indexes[i].1;
            match (ix.symbol, ix.map_object, ix.item, ix.equipment) {
                (Some(_), Some(_), Some(ii), Some(ei)) => {
                    if self.items[ii].owner == owner && self.equipments[ei].equipped {
                        let e = &self.equipments[ei];
                        let b = match stat {
                            Stat::MaxHp => e.max_hp_bonus,
                            Stat::Defense => e.defense_bonus,
                            Stat::Power => e.power_bonus,
                        };
                        sum = sum + b as i128;
                    }
                },
                _ => {},
            }
            i = i + 1;
        }
        sum
    }

    fn base_value(&self, id: u32, stat: Stat) -> (r: i32)
        requires
            self@.wf(),
        ensures
            r == self@.base_stat(id, stat),
    {
        match self.get_character(id) {
            Some((_, _, ch, _)) => match stat {
                Stat::MaxHp => ch.base_max_hp,
                Stat::Defense => ch.base_defense,
                Stat::Power => ch.base_power,
            },
            None => 0,
        }
    }

    /// Whether the value of `stat` of `id` fits an `i32`.
    pub fn check_stat_fits(&self, id: u32, stat: Stat) -> (r: bool)
        requires
            self@.wf(),
        ensures
            r == self@.stat_fits(id, stat),
    {
        let base = self.base_value(id, stat);
        let bonus = self.equipped_bonus(id, stat);
        proof {
            lemma_len_bounds(self);
            let n = self@.entities.len() as int;
            self@.lemma_bonus_sum_bound(n, id, stat);
            assert(n * 0x8000_0000 <= 0x1_0000_0000_0000_0000 * 0x8000_0000) by (nonlinear_arith)
                requires
                    0 <= n <= 0x1_0000_0000_0000_0000,
            ;
        }
        let v = base as i128 + bonus;
        i32::MIN as i128 <= v && v <= i32::MAX as i128
    }

    fn stat_value(&self, id: u32, stat: Stat) -> (r: i32)
        requires
            self@.wf(),
            self@.stat_fits(id, stat),
        ensures
            r == self@.stat(id, stat),
    {
        let base = self.base_value(id, stat);
        let bonus = self.equipped_bonus(id, stat);
        (base as i128 + bonus) as i32
    }

    /// Attack power of `id`: base power plus the bonuses of its equipment.
    pub fn power(&self, id: u32) -> (r: i32)
        requires
            self@.wf(),
            self@.stat_fits(id, Stat::Power),
        ensures
            r == self@.stat(id, Stat::Power),
    {
        self.stat_value(id, Stat::Power)
    }

    /// Defense of `id`: base defense plus the bonuses of its equipment.
    pub fn defense(&self, id: u32) -> (r: i32)
        requires
            self@.wf(),
            self@.stat_fits(id, Stat::Defense),
        ensures
            r == self@.stat(id, Stat::Defense),
    {
        self.stat_value(id, Stat::Defense)
    }

    /// Maximum hit points of `id`: base maximum plus the bonuses of its
    /// equipment.
    pub fn max_hp(&self, id: u32) -> (r: i32)
        requires
            self@.wf(),
            self@.stat_fits(id, Stat::MaxHp),
        ensures
            r == self@.stat(id, Stat::MaxHp),
    {
        self.stat_value(id, Stat::MaxHp)
    }

    /// The item the player has equipped in `slot`, if any.
    pub fn get_equipped_in_slot(&self, slot: Slot) -> (r: Option<u32>)
        requires
            self@.wf(),
        ensures
            self@.is_equipped_in_slot(slot, r),
    {
        let mut i: usize = 0;
        while i < self.entity_indexes.len()
            invariant
                self@.wf(),
                i <= self@.entities.len(),
                forall|q: int| 0 <= q < i ==> !self@.fills_slot(#[trigger] self@.entities[q].1, slot),
            decreases self@.entities.len() - i,
        {
            let ix = self.entity_indexes[i].1;
            proof {
                assert(self@.indexes_wf(self@.entities[i as int].1));
            }
            match (ix.symbol, ix.map_object, ix.item, ix.equipment) {
                (Some(_), Some(_), Some(ii), Some(ei)) => {
                    if self.items[ii].owner == self.player.id && self.equipments[ei].equipped
                        && self.equipments[ei].slot == slot {
                        return Some(self.entity_indexes[i].0);
                    }
                },
                _ => {},
            }
            i = i + 1;
        }
        None
    }

    /// Whether `(x, y)` is a wall or holds a blocking object.
    pub fn is_blocked(&self, x: i32, y: i32) -> (r: bool)
        requires
            self@.wf(),
            self@.map_ready(),
            on_grid(x as int, y as int),
        ensures
            r == self@.is_blocked(x as int, y as int),
    {
        let index_in_map = (y * cfg::MAP_WIDTH + x) as usize;
        // first test the map tile
        if self.map[index_in_map].block {
            return true;
        }
        // now check for any blocking objects
        let mut i: usize = 0;
        while i < self.entity_indexes.len()
            invariant
                self@.wf(),
                i <= self@.entities.len(),
                forall|q: int| 0 <= q < i ==> !self@.blocks_at(#[trigger] self@.entities[q].1, x as int, y as int),
            decreases self@.entities.len() - i,
        {
            let ix = self.entity_indexes[i].1;
            proof {
                assert(self@.indexes_wf(self@.entities[i as int].1));
            }
            match (ix.symbol, ix.map_object) {
                (Some(si), Some(moi)) => {
                    if self.map_objects[moi].block && self.symbols[si].x == x && self.symbols[si].y == y {
                        return true;
                    }
                },
                _ => {},
            }
            i = i + 1;
        }
        false
    }

    /// Adds a message to the game log.
    /// A copy of the whole world.
    pub fn duplicate(&self) -> (r: World)
        ensures
            r@ == self@,
    {
        let mut look_at: Vec<Option<u32>> = Vec::new();
        let mut i: usize = 0;
        while i < self.player.look_at.len()
            invariant
                i <= self.player.look_at@.len(),
                look_at@ =~= self.player.look_at@.subrange(0, i as int),
            decreases self.player.look_at@.len() - i,
        {
            look_at.push(self.player.look_at[i]);
            i = i + 1;
        }
        let player = Player {
            id: self.player.id,
            dungeon_level: self.player.dungeon_level,
            state: self.player.state,
            action: self.player.action,
            looking_at: self.player.looking_at,
            look_at,
            previous_player_position: self.player.previous_player_position,
        };
        let mut map_objects: Vec<MapObject> = Vec::new();
        let mut i: usize = 0;
        while i < self.map_objects.len()
            invariant
                i <= self.map_objects@.len(),
                map_objects@.len() == i,
                forall|k: int| 0 <= k < i ==> (#[trigger] map_objects@[k])@ == self.map_objects@[k]@,
            decreases self.map_objects@.len() - i,
        {
            map_objects.push(self.map_objects[i].copy());
            i = i + 1;
        }
        let mut ais: Vec<AiOption> = Vec::new();
        let mut i: usize = 0;
        while i < self.ais.len()
            invariant
                i <= self.ais@.len(),
                ais@ =~= self.ais@.subrange(0, i as int),
            decreases self.ais@.len() - i,
        {
            let option = match &self.ais[i].option {
                Some(a) => Some(a.copy()),
                None => None,
            };
            ais.push(AiOption { option });
            i = i + 1;
        }
        let mut log: Vec<LogMessage> = Vec::new();
        let mut i: usize = 0;
        while i < self.log.len()
            invariant
                i <= self.log@.len(),
                log@.len() == i,
                forall|k: int| 0 <= k < i ==> (#[trigger] log@[k])@ == self.log@[k]@,
            decreases self.log@.len() - i,
        {
            log.push(self.log[i].copy());
            i = i + 1;
        }
        let mut dialogs: Vec<DialogBox> = Vec::new();
        let mut i: usize = 0;
        while i < self.dialogs.len()
            invariant
                i <= self.dialogs@.len(),
                dialogs@.len() == i,
                forall|k: int| 0 <= k < i ==> (#[trigger] dialogs@[k])@ == self.dialogs@[k]@,
            decreases self.dialogs@.len() - i,
        {
            let d = &self.dialogs[i];
            let mut options: Vec<String> = Vec::new();
            let mut j: usize = 0;
            while j < d.options.len()
                invariant
                    j <= d.options@.len(),
                    options@.len() == j,
                    forall|k: int| 0 <= k < j ==> (#[trigger] options@[k])@ == d.options@[k]@,
                decreases d.options@.len() - j,
            {
                options.push(d.options[j].clone());
                j = j + 1;
            }
            proof {
                assert(options@.map_values(|o: String| o@) =~= d.options@.map_values(|o: String| o@));
            }
            dialogs.push(DialogBox { kind: d.kind, header: d.header.clone(), options, width: d.width });
            i = i + 1;
        }
        let r = World {
            id_count: self.id_count,
            entity_indexes: copy_vec(&self.entity_indexes),
            player,
            must_be_destroyed: self.must_be_destroyed,
            symbols: copy_vec(&self.symbols),
            map: copy_vec(&self.map),
            map_objects,
            characters: copy_vec(&self.characters),
            ais,
            items: copy_vec(&self.items),
            equipments: copy_vec(&self.equipments),
            ammos: copy_vec(&self.ammos),
            log,
            dialogs,
        };
        proof {
            assert(r@.map_objects =~= self@.map_objects);
            assert(r@.log =~= self@.log);
            assert(r@.dialogs =~= self@.dialogs);
            assert(r@.player.look_at =~= self@.player.look_at);
            assert(r@.player == self@.player);
            assert(r@.ais == self@.ais);
            assert(r@.entities == self@.entities);
            assert(r@.symbols == self@.symbols);
        }
        r
    }

    pub fn add_log(&mut self, color: Color, message: String)
        requires
            old(self)@.wf(),
            old(self).id_count < u32::MAX,
        ensures
            final(self)@ == old(self)@.with_log(message@, color),
            final(self)@.wf(),
    {
        let ghost pre = self@;
        proof {
            pre.lemma_with_log(message@, color);
        }
        let b = new_entity().add_log_message(LogMessage(message, color));
        b.create(self);
        proof {
            assert(self@.log =~= pre.with_log(message@, color).log);
            assert(self@.map_objects =~= pre.map_objects);
            assert(self@.dialogs =~= pre.dialogs);
        }
    }

    /// Opens a dialog on top of the others.
    pub fn add_dialog_box(&mut self, kind: DialogKind, header: String, options: Vec<String>, width: i32)
        requires
            old(self)@.wf(),
            old(self).id_count < u32::MAX,
        ensures
            final(self)@ == old(self)@.with_dialog(DialogView {
                kind,
                header: header@,
                options: options@.map_values(|o: String| o@),
                width,
            }),
            final(self)@.wf(),
    {
        let ghost pre = self@;
        let d = DialogBox { kind, header, options, width };
        let b = new_entity().add_dialog(d);
        b.create(self);
        proof {
            assert(self@.dialogs =~= pre.dialogs.push(d@));
            assert(self@.map_objects =~= pre.map_objects);
            assert(self@.log =~= pre.log);
        }
    }
}

/// A copy of a vector of plain values.
fn copy_vec<T: Copy>(v: &Vec<T>) -> (r: Vec<T>)
    ensures
        r@ == v@,
{
    let mut r: Vec<T> = Vec::new();
    let mut i: usize = 0;
    while i < v.len()
        invariant
            i <= v@.len(),
            r@ =~= v@.subrange(0, i as int),
        decreases v@.len() - i,
    {
        r.push(v[i]);
        i = i + 1;
    }
    r
}

} // verus!
