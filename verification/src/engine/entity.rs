//! Creating entities: an entity is an id together with the positions of its
//! components in the component vectors of the world.
use crate::cmtp::{
    AiOption, Ammo, Character, Color, DialogBox, DialogView, Equipment, LogMessage, MapCell,
    MapObject, MapObjectView, OwnedItem, Symbol,
};
use crate::engine::game::{self, on_grid, WorldView};
use vstd::prelude::*;

verus! {

/// Where each component of one entity is stored (`None`: the entity does not
/// have that component).
#[derive(Clone, Copy, Debug, PartialEq, Eq, Structural)]
pub struct Indexes {
    pub symbol: Option<usize>,
    pub map_cell: Option<usize>,
    pub map_object: Option<usize>,
    pub character: Option<usize>,
    pub ai: Option<usize>,
    pub item: Option<usize>,
    pub equipment: Option<usize>,
    pub ammo: Option<usize>,
    pub log_message: Option<usize>,
    pub dialog: Option<usize>,
}

impl Default for Indexes {
    fn default() -> (ix: Self)
        ensures
            ix == Indexes::empty(),
    {
        Indexes {
            symbol: None,
            map_cell: None,
            map_object: None,
            character: None,
            ai: None,
            item: None,
            equipment: None,
            ammo: None,
            log_message: None,
            dialog: None,
        }
    }
}

impl Indexes {
    pub open spec fn empty() -> Indexes {
        Indexes {
            symbol: None,
            map_cell: None,
            map_object: None,
            character: None,
            ai: None,
            item: None,
            equipment: None,
            ammo: None,
            log_message: None,
            dialog: None,
        }
    }
}

pub open spec fn next_index<T>(c: Option<T>, len: int) -> Option<usize> {
    match c {
        Some(_) => Some(len as usize),
        None => None,
    }
}

pub open spec fn pushed<T>(s: Seq<T>, c: Option<T>) -> Seq<T> {
    match c {
        Some(v) => s.push(v),
        None => s,
    }
}

/// The components of an entity that has not been stored yet.
pub struct Builder {
    pub symbol: Option<Symbol>,
    pub map_cell: Option<MapCell>,
    pub map_object: Option<MapObject>,
    pub character: Option<Character>,
    pub ai: Option<AiOption>,
    pub item: Option<OwnedItem>,
    pub equipment: Option<Equipment>,
    pub ammo: Option<Ammo>,
    pub log_message: Option<LogMessage>,
    pub dialog: Option<DialogBox>,
}

/// A builder as seen by the specifications.
pub struct BuilderView {
    pub symbol: Option<Symbol>,
    pub map_cell: Option<MapCell>,
    pub map_object: Option<MapObjectView>,
    pub character: Option<Character>,
    pub ai: Option<AiOption>,
    pub item: Option<OwnedItem>,
    pub equipment: Option<Equipment>,
    pub ammo: Option<Ammo>,
    pub log_message: Option<(Seq<char>, Color)>,
    pub dialog: Option<DialogView>,
}

pub open spec fn opt_view<T: View>(o: Option<T>) -> Option<T::V> {
    match o {
        Some(v) => Some(v@),
        None => None,
    }
}

impl View for Builder {
    type V = BuilderView;

    open spec fn view(&self) -> BuilderView {
        BuilderView {
            symbol: self.symbol,
            map_cell: self.map_cell,
            map_object: opt_view(self.map_object),
            character: self.character,
            ai: self.ai,
            item: self.item,
            equipment: self.equipment,
            ammo: self.ammo,
            log_message: opt_view(self.log_message),
            dialog: opt_view(self.dialog),
        }
    }
}

impl BuilderView {
    /// A builder without any component.
    pub open spec fn empty() -> BuilderView {
        BuilderView {
            symbol: None,
            map_cell: None,
            map_object: None,
            character: None,
            ai: None,
            item: None,
            equipment: None,
            ammo: None,
            log_message: None,
            dialog: None,
        }
    }

    pub open spec fn is_empty(self) -> bool {
        &&& self.symbol is None
        &&& self.map_cell is None
        &&& self.map_object is None
        &&& self.character is None
        &&& self.ai is None
        &&& self.item is None
        &&& self.equipment is None
        &&& self.ammo is None
        &&& self.log_message is None
        &&& self.dialog is None
    }

    /// The symbol, if any, names a cell of a complete map.
    pub open spec fn placeable(self) -> bool {
        self.symbol matches Some(s) ==> on_grid(s.x as int, s.y as int)
    }

    /// The indexes the entity gets when it is stored in `world`.
    pub open spec fn indexes_in(self, world: WorldView) -> Indexes {
        Indexes {
            symbol: next_index(self.symbol, world.symbols.len() as int),
            map_cell: next_index(self.map_cell, world.map.len() as int),
            map_object: next_index(self.map_object, world.map_objects.len() as int),
            character: next_index(self.character, world.characters.len() as int),
            ai: next_index(self.ai, world.ais.len() as int),
            item: next_index(self.item, world.items.len() as int),
            equipment: next_index(self.equipment, world.equipments.len() as int),
            ammo: next_index(self.ammo, world.ammos.len() as int),
            log_message: next_index(self.log_message, world.log.len() as int),
            dialog: next_index(self.dialog, world.dialogs.len() as int),
        }
    }

    /// `world` with this entity stored under the next id.
    pub open spec fn stored_in(self, world: WorldView) -> WorldView {
        let id = (world.id_count + 1) as u32;
        WorldView {
            id_count: id,
            entities: world.entities.push((id, self.indexes_in(world))),
            symbols: pushed(world.symbols, self.symbol),
            map: pushed(world.map, self.map_cell),
            map_objects: pushed(world.map_objects, self.map_object),
            characters: pushed(world.characters, self.character),
            ais: pushed(world.ais, self.ai),
            items: pushed(world.items, self.item),
            equipments: pushed(world.equipments, self.equipment),
            ammos: pushed(world.ammos, self.ammo),
            log: pushed(world.log, self.log_message),
            dialogs: pushed(world.dialogs, self.dialog),
            ..world
        }
    }
}

impl Builder {
    pub(crate) fn new() -> (b: Self)
        ensures
            b@.is_empty(),
    {
        Builder {
            symbol: None,
            map_cell: None,
            map_object: None,
            character: None,
            ai: None,
            item: None,
            equipment: None,
            ammo: None,
            log_message: None,
            dialog: None,
        }
    }

    /// Stores the entity in `world` under a fresh id, which is returned. Its
    /// symbol, if it has one, must name a cell of a complete map by the index
    /// `y * MAP_WIDTH + x`: every map object's cell is looked up by that index
    /// (blocking tests, the field of view, drawing), and that lookup fails
    /// for a symbol naming none.
    pub fn create(self, world: &mut game::World) -> (id: u32)
        requires
            old(world)@.wf(),
            old(world).id_count < u32::MAX,
            self@.placeable(),
        ensures
            final(world)@ == self@.stored_in(old(world)@),
            id == final(world).id_count,
            final(world)@.wf(),
    {
        create(world, self)
    }

    pub fn add_symbol(self, symbol: Symbol) -> (b: Self)
        ensures
            b@ == (BuilderView { symbol: Some(symbol), ..self@ }),
    {
        let mut b = self;
        b.symbol = Some(symbol);
        b
    }

    pub fn add_map_cell(self, map_cell: MapCell) -> (b: Self)
        ensures
            b@ == (BuilderView { map_cell: Some(map_cell), ..self@ }),
    {
        let mut b = self;
        b.map_cell = Some(map_cell);
        b
    }

    pub fn add_map_object(self, map_object: MapObject) -> (b: Self)
        ensures
            b@ == (BuilderView { map_object: Some(map_object@), ..self@ }),
    {
        let mut b = self;
        b.map_object = Some(map_object);
        b
    }

    pub fn add_character(self, character: Character) -> (b: Self)
        ensures
            b@ == (BuilderView { character: Some(character), ..self@ }),
    {
        let mut b = self;
        b.character = Some(character);
        b
    }

    pub fn add_ai(self, ai: AiOption) -> (b: Self)
        ensures
            b@ == (BuilderView { ai: Some(ai), ..self@ }),
    {
        let mut b = self;
        b.ai = Some(ai);
        b
    }

    pub fn add_item(self, item: OwnedItem) -> (b: Self)
        ensures
            b@ == (BuilderView { item: Some(item), ..self@ }),
    {
        let mut b = self;
        b.item = Some(item);
        b
    }

    pub fn add_equipment(self, equipment: Option<Equipment>) -> (b: Self)
        ensures
            b@ == (BuilderView { equipment: equipment, ..self@ }),
    {
        let mut b = self;
        b.equipment = equipment;
        b
    }

    pub fn add_ammo(self, ammo: Option<Ammo>) -> (b: Self)
        ensures
            b@ == (BuilderView { ammo: ammo, ..self@ }),
    {
        let mut b = self;
        b.ammo = ammo;
        b
    }

    pub fn add_log_message(self, message: LogMessage) -> (b: Self)
        ensures
            b@ == (BuilderView { log_message: Some(message@), ..self@ }),
    {
        let mut b = self;
        b.log_message = Some(message);
        b
    }

    pub fn add_dialog(self, dialog: DialogBox) -> (b: Self)
        ensures
            b@ == (BuilderView { dialog: Some(dialog@), ..self@ }),
    {
        let mut b = self;
        b.dialog = Some(dialog);
        b
    }
}

/// Storing an entity whose symbol lies on the map keeps a world well formed.
pub proof fn lemma_stored_wf(b: BuilderView, w: WorldView)
    requires
        w.wf(),
        w.id_count < u32::MAX,
        b.placeable(),
    ensures
        b.stored_in(w).wf(),
{
    let post = b.stored_in(w);
    assert forall|i: int| 0 <= i < post.entities.len() implies post.indexes_wf(#[trigger] post.entities[i].1) by {
        if i < w.entities.len() {
            assert(w.indexes_wf(w.entities[i].1));
        }
    }
    assert forall|i: int| 0 <= i < post.symbols.len() implies on_grid(
        #[trigger] post.symbols[i].x as int,
        post.symbols[i].y as int,
    ) by {
        if i < w.symbols.len() {
            assert(on_grid(w.symbols[i].x as int, w.symbols[i].y as int));
        }
    }
    assert forall|i: int, j: int| 0 <= i < j < post.entities.len() implies #[trigger] post.entities[i].0
        < #[trigger] post.entities[j].0 by {
        if j == w.entities.len() {
            assert(w.entities[i].0 <= w.id_count);
        }
    }
}

/// An entity stored from a builder is found again under the id it got,
/// with exactly the components of the builder, and every entity already
/// there keeps its components.
pub proof fn law_created_entity_found(b: BuilderView, w: WorldView)
    requires
        w.wf(),
        w.lens_ok(),
        w.id_count < u32::MAX,
        b.placeable(),
    ensures
        ({
            let post = b.stored_in(w);
            let id = post.id_count;
            &&& post.has(id)
            &&& !w.has(id)
            &&& post.indexes_of(id) == Some(b.indexes_in(w))
            &&& (b.symbol matches Some(s) ==> post.sym_of(id) == s)
            &&& (b.map_object matches Some(m) ==> post.mobj_of(id) == m)
            &&& (b.character matches Some(c) ==> post.char_of(id) == c)
            &&& (b.ai matches Some(a) ==> post.ai_of(id) == a)
            &&& (b.item matches Some(it) ==> post.item_of(id) == it)
            &&& post.eqp_of(id) == b.equipment
            &&& post.ammo_of(id) == b.ammo
            &&& forall|j: u32| w.has(j) ==> #[trigger] post.indexes_of(j) == w.indexes_of(j)
            &&& forall|j: u32| w.has(j) && w.is_character(j) ==> #[trigger] post.char_of(j) == w.char_of(j)
        }),
{
    let post = b.stored_in(w);
    lemma_stored_wf(b, w);
    let n = w.entities.len() as int;
    post.lemma_indexes_at(n);
    assert(post.entities.subrange(0, n) =~= w.entities);
    if w.has(post.id_count) {
        let p = w.pos_of(post.id_count);
        assert(w.entities[p].0 <= w.id_count);
    }
    assert forall|j: u32| w.has(j) implies #[trigger] post.indexes_of(j) == w.indexes_of(j) by {
        w.lemma_has_appended(post, j);
    }
    assert forall|j: u32| w.has(j) && w.is_character(j) implies #[trigger] post.char_of(j) == w.char_of(j) by {
        w.lemma_has_appended(post, j);
        w.lemma_wf_indexes(j);
    }
}

fn push_opt<T>(v: &mut Vec<T>, c: Option<T>)
    ensures
        final(v)@ == pushed(old(v)@, c),
{
    match c {
        Some(x) => v.push(x),
        None => {},
    }
}

fn index_if<T>(c: &Option<T>, len: usize) -> (r: Option<usize>)
    ensures
        r == next_index(*c, len as int),
{
    match c {
        Some(_) => Some(len),
        None => None,
    }
}

/// Stores the components of `b` at the ends of the component vectors, and the
/// entity under the next id.
fn create(world: &mut game::World, b: Builder) -> (id: u32)
    requires
        old(world)@.wf(),
        old(world).id_count < u32::MAX,
        b@.placeable(),
    ensures
        final(world)@ == b@.stored_in(old(world)@),
        id == final(world).id_count,
        final(world)@.wf(),
{
    let ghost pre = world@;
    let ghost bv = b@;
    let entity_indexes = Indexes {
        symbol: index_if(&b.symbol, world.symbols.len()),
        map_cell: index_if(&b.map_cell, world.map.len()),
        map_object: index_if(&b.map_object, world.map_objects.len()),
        character: index_if(&b.character, world.characters.len()),
        ai: index_if(&b.ai, world.ais.len()),
        item: index_if(&b.item, world.items.len()),
        equipment: index_if(&b.equipment, world.equipments.len()),
        ammo: index_if(&b.ammo, world.ammos.len()),
        log_message: index_if(&b.log_message, world.log.len()),
        dialog: index_if(&b.dialog, world.dialogs.len()),
    };
    assert(entity_indexes == bv.indexes_in(pre));
    let ghost mo = b.map_object;
    let ghost lm = b.log_message;
    let ghost dg = b.dialog;
    push_opt(&mut world.symbols, b.symbol);
    push_opt(&mut world.map, b.map_cell);
    push_opt(&mut world.map_objects, b.map_object);
    push_opt(&mut world.characters, b.character);
    push_opt(&mut world.ais, b.ai);
    push_opt(&mut world.items, b.item);
    push_opt(&mut world.equipments, b.equipment);
    push_opt(&mut world.ammos, b.ammo);
    push_opt(&mut world.log, b.log_message);
    push_opt(&mut world.dialogs, b.dialog);
    world.id_count = world.id_count + 1;
    let id = world.id_count;
    world.entity_indexes.push((id, entity_indexes));
    proof {
        let post = world@;
        let want = bv.stored_in(pre);
        assert(post.map_objects =~= want.map_objects);
        assert(post.log =~= want.log);
        assert(post.dialogs =~= want.dialogs);
        assert forall|i: int| 0 <= i < post.entities.len() implies
            post.indexes_wf(#[trigger] post.entities[i].1) by {
            if i < pre.entities.len() {
                assert(pre.indexes_wf(pre.entities[i].1));
            }
        }
        assert forall|i: int| 0 <= i < post.symbols.len() implies
            on_grid(#[trigger] post.symbols[i].x as int, post.symbols[i].y as int) by {
            if i < pre.symbols.len() {
                assert(on_grid(pre.symbols[i].x as int, pre.symbols[i].y as int));
            }
        }
        assert forall|i: int, j: int| 0 <= i < j < post.entities.len() implies
            #[trigger] post.entities[i].0 < #[trigger] post.entities[j].0 by {
            if j == pre.entities.len() {
                assert(pre.entities[i].0 <= pre.id_count);
            }
        }
    }
    id
}

} // verus!
