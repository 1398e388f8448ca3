//! The templates of the characters and items a dungeon is populated with,
//! each with the chances it has to appear on a level.
use crate::cmtp::{self, Ai, Ammo, Equipment, MapObject, MapObjectView, OwnedItem, Symbol};
use vstd::prelude::*;

verus! {

/// From `from_level` on, a template is picked with this weight.
#[derive(Clone, Copy, Debug, PartialEq, Eq, Structural)]
pub struct SpawnChance {
    pub from_level: u32,
    pub probability_weight: u32,
}

/// The template of an item.
#[derive(Debug)]
pub struct Item {
    pub symbol: Symbol,
    pub map_object: MapObject,
    pub item: OwnedItem,
    pub equipment: Option<Equipment>,
    pub ammo: Option<Ammo>,
    pub spawn_chances: Vec<SpawnChance>,
}

/// The template of a character.
#[derive(Debug)]
pub struct Character {
    pub symbol: Symbol,
    pub map_object: MapObject,
    pub character: cmtp::Character,
    pub ai: Option<Ai>,
    pub spawn_chances: Vec<SpawnChance>,
}

/// An item template as seen by the specifications.
pub struct ItemView {
    pub symbol: Symbol,
    pub map_object: MapObjectView,
    pub item: OwnedItem,
    pub equipment: Option<Equipment>,
    pub ammo: Option<Ammo>,
    pub spawn_chances: Seq<SpawnChance>,
}

/// A character template as seen by the specifications.
pub struct CharacterView {
    pub symbol: Symbol,
    pub map_object: MapObjectView,
    pub character: cmtp::Character,
    pub ai: Option<Ai>,
    pub spawn_chances: Seq<SpawnChance>,
}

impl View for Item {
    type V = ItemView;

    open spec fn view(&self) -> ItemView {
        ItemView {
            symbol: self.symbol,
            map_object: self.map_object@,
            item: self.item,
            equipment: self.equipment,
            ammo: self.ammo,
            spawn_chances: self.spawn_chances@,
        }
    }
}

impl View for Character {
    type V = CharacterView;

    open spec fn view(&self) -> CharacterView {
        CharacterView {
            symbol: self.symbol,
            map_object: self.map_object@,
            character: self.character,
            ai: self.ai,
            spawn_chances: self.spawn_chances@,
        }
    }
}

impl Ai {
    /// A copy of this mind.
    pub fn copy(&self) -> (r: Ai)
        ensures
            r == *self,
        decreases self,
    {
        match self {
            Ai::Basic => Ai::Basic,
            Ai::Confused { previous_ai, num_turns } => Ai::Confused {
                previous_ai: Box::new((**previous_ai).copy()),
                num_turns: *num_turns,
            },
        }
    }
}

fn copy_chances(v: &Vec<SpawnChance>) -> (r: Vec<SpawnChance>)
    ensures
        r@ == v@,
{
    let mut r: Vec<SpawnChance> = Vec::new();
    let mut i: usize = 0;
    while i < v.len()
        invariant
            i <= v@.len(),
            r@ == v@.subrange(0, i as int),
        decreases v@.len() - i,
    {
        r.push(v[i]);
        i = i + 1;
        proof {
            assert(r@ =~= v@.subrange(0, i as int));
        }
    }
    proof {
        assert(r@ =~= v@);
    }
    r
}

impl Item {
    /// A copy of this template.
    pub fn copy(&self) -> (r: Item)
        ensures
            r@ == self@,
    {
        Item {
            symbol: self.symbol,
            map_object: self.map_object.copy(),
            item: self.item,
            equipment: self.equipment,
            ammo: self.ammo,
            spawn_chances: copy_chances(&self.spawn_chances),
        }
    }
}

impl Character {
    /// A copy of this template.
    pub fn copy(&self) -> (r: Character)
        ensures
            r@ == self@,
    {
        let ai = match &self.ai {
            Some(a) => Some(a.copy()),
            None => None,
        };
        Character {
            symbol: self.symbol,
            map_object: self.map_object.copy(),
            character: self.character,
            ai,
            spawn_chances: copy_chances(&self.spawn_chances),
        }
    }
}

/// The weight of the last chance that has started by level `lvl` (0 when
/// none has).
pub open spec fn spec_weight_for_level(chances: Seq<SpawnChance>, lvl: int) -> int
    decreases chances.len(),
{
    if chances.len() == 0 {
        0
    } else if chances.last().from_level <= lvl {
        chances.last().probability_weight as int
    } else {
        spec_weight_for_level(chances.drop_last(), lvl)
    }
}

/// The weight a template has on level `lvl`: that of the last of its chances
/// that has started by then, or 0.
pub fn weight_for_level(spawn_chances: &[SpawnChance], lvl: u32) -> (r: u32)
    ensures
        r == spec_weight_for_level(spawn_chances@, lvl as int),
{
    let mut i: usize = spawn_chances.len();
    proof {
        assert(spawn_chances@.subrange(0, i as int) =~= spawn_chances@);
    }
    while i > 0
        invariant
            i <= spawn_chances@.len(),
            spec_weight_for_level(spawn_chances@.subrange(0, i as int), lvl as int) == spec_weight_for_level(
                spawn_chances@,
                lvl as int,
            ),
        decreases i,
    {
        let ghost s = spawn_chances@.subrange(0, i as int);
        let chance = spawn_chances[i - 1];
        if chance.from_level <= lvl {
            return chance.probability_weight;
        }
        i = i - 1;
        proof {
            assert(s.drop_last() =~= spawn_chances@.subrange(0, i as int));
        }
    }
    proof {
        assert(spawn_chances@.subrange(0, 0) =~= Seq::<SpawnChance>::empty());
    }
    0
}

/// The item templates, each under its id.
pub struct ItemsLoader {
    pub item_vals: Vec<(String, Item)>,
}

/// The character templates, each under its id.
pub struct CharactersLoader {
    pub char_vals: Vec<(String, Character)>,
}

/// The position of the first of `ids` equal to `id`, or -1.
pub open spec fn id_pos(ids: Seq<Seq<char>>, id: Seq<char>) -> int
    decreases ids.len(),
{
    if ids.len() == 0 {
        -1
    } else {
        let p = id_pos(ids.drop_last(), id);
        if p >= 0 {
            p
        } else if ids.last() == id {
            ids.len() - 1
        } else {
            -1
        }
    }
}

pub proof fn lemma_id_pos(ids: Seq<Seq<char>>, id: Seq<char>)
    ensures
        -1 <= id_pos(ids, id) < ids.len(),
        id_pos(ids, id) >= 0 ==> ids[id_pos(ids, id)] == id,
        id_pos(ids, id) >= 0 ==> forall|j: int| 0 <= j < id_pos(ids, id) ==> ids[j] != id,
        id_pos(ids, id) < 0 <==> forall|j: int| 0 <= j < ids.len() ==> ids[j] != id,
    decreases ids.len(),
{
    if ids.len() > 0 {
        let d = ids.drop_last();
        lemma_id_pos(d, id);
        assert forall|j: int| 0 <= j < d.len() implies d[j] == ids[j] by {}
    }
}

impl ItemsLoader {
    /// The loader of the given templates.
    pub fn new(item_vals: Vec<(String, Item)>) -> (r: ItemsLoader)
        ensures
            r.item_vals@ == item_vals@,
    {
        ItemsLoader { item_vals }
    }

    /// The ids of the templates, in order.
    pub open spec fn ids(&self) -> Seq<Seq<char>> {
        self.item_vals@.map_values(|e: (String, Item)| e.0@)
    }

    /// The ids of the templates and, in the same order, their weights on
    /// level `for_level`.
    pub fn weighted_table(&self, for_level: u32) -> (r: (Vec<&str>, Vec<u32>))
        ensures
            r.0@.len() == self.item_vals@.len(),
            r.1@.len() == self.item_vals@.len(),
            forall|i: int|
                0 <= i < self.item_vals@.len() ==> {
                    &&& (#[trigger] r.0@[i])@ == self.item_vals@[i].0@
                    &&& r.1@[i] == spec_weight_for_level(self.item_vals@[i].1.spawn_chances@, for_level as int)
                },
    {
        let mut ids: Vec<&str> = Vec::new();
        let mut weights: Vec<u32> = Vec::new();
        let mut i: usize = 0;
        while i < self.item_vals.len()
            invariant
                i <= self.item_vals@.len(),
                ids@.len() == i,
                weights@.len() == i,
                forall|j: int|
                    0 <= j < i ==> {
                        &&& (#[trigger] ids@[j])@ == self.item_vals@[j].0@
                        &&& weights@[j] == spec_weight_for_level(self.item_vals@[j].1.spawn_chances@, for_level as int)
                    },
            decreases self.item_vals@.len() - i,
        {
            let entry = &self.item_vals[i];
            let ghost before_ids = ids@;
            let ghost before_weights = weights@;
            ids.push(entry.0.as_str());
            weights.push(weight_for_level(entry.1.spawn_chances.as_slice(), for_level));
            proof {
                assert forall|j: int| 0 <= j < i + 1 implies {
                    &&& (#[trigger] ids@[j])@ == self.item_vals@[j].0@
                    &&& weights@[j] == spec_weight_for_level(self.item_vals@[j].1.spawn_chances@, for_level as int)
                } by {
                    if j < i {
                        assert(ids@[j] == before_ids[j]);
                        assert(weights@[j] == before_weights[j]);
                    }
                }
            }
            i = i + 1;
        }
        (ids, weights)
    }

    /// A copy of the template with id `id` (the first one, should two share
    /// it).
    pub fn get_clone(&self, id: &str) -> (r: Item)
        requires
            id_pos(self.ids(), id@) >= 0,
        ensures
            r@ == self.item_vals@[id_pos(self.ids(), id@)].1@,
    {
        proof {
            lemma_id_pos(self.ids(), id@);
        }
        let key = id.to_owned();
        let mut i: usize = 0;
        while i < self.item_vals.len()
            invariant
                i <= self.item_vals@.len(),
                key@ == id@,
                id_pos(self.ids(), id@) >= i,
                id_pos(self.ids(), id@) < self.item_vals@.len(),
                self.ids()[id_pos(self.ids(), id@)] == id@,
                forall|j: int| 0 <= j < id_pos(self.ids(), id@) ==> self.ids()[j] != id@,
            decreases self.item_vals@.len() - i,
        {
            if self.item_vals[i].0 == key {
                proof {
                    assert(self.ids()[i as int] == id@);
                }
                return self.item_vals[i].1.copy();
            }
            proof {
                assert(self.ids()[i as int] != id@);
            }
            i = i + 1;
        }
        proof {
            assert(false);
        }
        self.item_vals[0].1.copy()
    }
}

impl CharactersLoader {
    /// The loader of the given templates.
    pub fn new(char_vals: Vec<(String, Character)>) -> (r: CharactersLoader)
        ensures
            r.char_vals@ == char_vals@,
    {
        CharactersLoader { char_vals }
    }

    /// The ids of the templates, in order.
    pub open spec fn ids(&self) -> Seq<Seq<char>> {
        self.char_vals@.map_values(|e: (String, Character)| e.0@)
    }

    /// The ids of the templates and, in the same order, their weights on
    /// level `for_level`.
    pub fn weighted_table(&self, for_level: u32) -> (r: (Vec<&str>, Vec<u32>))
        ensures
            r.0@.len() == self.char_vals@.len(),
            r.1@.len() == self.char_vals@.len(),
            forall|i: int|
                0 <= i < self.char_vals@.len() ==> {
                    &&& (#[trigger] r.0@[i])@ == self.char_vals@[i].0@
                    &&& r.1@[i] == spec_weight_for_level(self.char_vals@[i].1.spawn_chances@, for_level as int)
                },
    {
        let mut ids: Vec<&str> = Vec::new();
        let mut weights: Vec<u32> = Vec::new();
        let mut i: usize = 0;
        while i < self.char_vals.len()
            invariant
                i <= self.char_vals@.len(),
                ids@.len() == i,
                weights@.len() == i,
                forall|j: int|
                    0 <= j < i ==> {
                        &&& (#[trigger] ids@[j])@ == self.char_vals@[j].0@
                        &&& weights@[j] == spec_weight_for_level(self.char_vals@[j].1.spawn_chances@, for_level as int)
                    },
            decreases self.char_vals@.len() - i,
        {
            let entry = &self.char_vals[i];
            let ghost before_ids = ids@;
            let ghost before_weights = weights@;
            ids.push(entry.0.as_str());
            weights.push(weight_for_level(entry.1.spawn_chances.as_slice(), for_level));
            proof {
                assert forall|j: int| 0 <= j < i + 1 implies {
                    &&& (#[trigger] ids@[j])@ == self.char_vals@[j].0@
                    &&& weights@[j] == spec_weight_for_level(self.char_vals@[j].1.spawn_chances@, for_level as int)
                } by {
                    if j < i {
                        assert(ids@[j] == before_ids[j]);
                        assert(weights@[j] == before_weights[j]);
                    }
                }
            }
            i = i + 1;
        }
        (ids, weights)
    }

    /// A copy of the template with id `id` (the first one, should two share
    /// it).
    pub fn get_clone(&self, id: &str) -> (r: Character)
        requires
            id_pos(self.ids(), id@) >= 0,
        ensures
            r@ == self.char_vals@[id_pos(self.ids(), id@)].1@,
    {
        proof {
            lemma_id_pos(self.ids(), id@);
        }
        let key = id.to_owned();
        let mut i: usize = 0;
        while i < self.char_vals.len()
            invariant
                i <= self.char_vals@.len(),
                key@ == id@,
                id_pos(self.ids(), id@) >= i,
                id_pos(self.ids(), id@) < self.char_vals@.len(),
                self.ids()[id_pos(self.ids(), id@)] == id@,
                forall|j: int| 0 <= j < id_pos(self.ids(), id@) ==> self.ids()[j] != id@,
            decreases self.char_vals@.len() - i,
        {
            if self.char_vals[i].0 == key {
                proof {
                    assert(self.ids()[i as int] == id@);
                }
                return self.char_vals[i].1.copy();
            }
            proof {
                assert(self.ids()[i as int] != id@);
            }
            i = i + 1;
        }
        proof {
            assert(false);
        }
        self.char_vals[0].1.copy()
    }
}

/// No two ids are the same.
pub open spec fn ids_distinct(ids: Seq<Seq<char>>) -> bool {
    forall|i: int, j: int| 0 <= i < j < ids.len() ==> ids[i] != ids[j]
}

/// With distinct ids, the id at `j` is found at `j`.
pub proof fn lemma_id_pos_distinct(ids: Seq<Seq<char>>, j: int)
    requires
        ids_distinct(ids),
        0 <= j < ids.len(),
    ensures
        id_pos(ids, ids[j]) == j,
{
    lemma_id_pos(ids, ids[j]);
    let p = id_pos(ids, ids[j]);
    if p < j {
        assert(ids[p] == ids[j]);
    }
}

/// The weights of the character templates on level `level`.
pub open spec fn char_weights(cl: &CharactersLoader, level: int) -> Seq<u32> {
    cl.char_vals@.map_values(|e: (String, Character)| spec_weight_for_level(e.1.spawn_chances@, level) as u32)
}

/// The weights of the item templates on level `level`.
pub open spec fn item_weights(il: &ItemsLoader, level: int) -> Seq<u32> {
    il.item_vals@.map_values(|e: (String, Item)| spec_weight_for_level(e.1.spawn_chances@, level) as u32)
}

pub proof fn lemma_weight_bound(chances: Seq<SpawnChance>, lvl: int)
    ensures
        0 <= spec_weight_for_level(chances, lvl) <= u32::MAX,
    decreases chances.len(),
{
    if chances.len() > 0 {
        lemma_weight_bound(chances.drop_last(), lvl);
    }
}

/// Whether no two of `ids` are the same.
fn check_distinct(ids: &Vec<&String>) -> (r: bool)
    ensures
        r == ids_distinct(ids@.map_values(|s: &String| s@)),
{
    let ghost v = ids@.map_values(|s: &String| s@);
    let mut i: usize = 0;
    while i < ids.len()
        invariant
            v == ids@.map_values(|s: &String| s@),
            i <= ids@.len(),
            forall|a: int, b: int| 0 <= a < b < i ==> v[a] != v[b],
        decreases ids@.len() - i,
    {
        let mut j: usize = 0;
        while j < i
            invariant
                v == ids@.map_values(|s: &String| s@),
                i < ids@.len(),
                j <= i,
                forall|a: int, b: int| 0 <= a < b < i ==> v[a] != v[b],
                forall|a: int| 0 <= a < j ==> v[a] != v[i as int],
            decreases i - j,
        {
            if *ids[j] == *ids[i] {
                proof {
                    assert(v[j as int] == v[i as int]);
                }
                return false;
            }
            j = j + 1;
        }
        i = i + 1;
    }
    true
}

/// Whether the weights sum up to at most `u32::MAX`, and whether one is not 0.
fn check_weights(weights: &Vec<u32>) -> (r: (bool, bool))
    ensures
        r.0 == (crate::rng::total_weight(weights@) <= u32::MAX),
        r.1 == crate::rng::some_weight(weights@),
{
    let mut total: u64 = 0;
    let mut any = false;
    let mut i: usize = 0;
    while i < weights.len()
        invariant
            i <= weights@.len(),
            total == crate::rng::total_weight(weights@.subrange(0, i as int)) || (total == u32::MAX as u64 + 1
                && crate::rng::total_weight(weights@.subrange(0, i as int)) > u32::MAX),
            total <= u32::MAX as u64 + 1,
            any <==> exists|k: int| 0 <= k < i && #[trigger] weights@[k] > 0,
        decreases weights@.len() - i,
    {
        proof {
            assert(weights@.subrange(0, i as int + 1).drop_last() =~= weights@.subrange(0, i as int));
        }
        if total <= u32::MAX as u64 {
            total = total + weights[i] as u64;
            if total > u32::MAX as u64 {
                total = u32::MAX as u64 + 1;
            }
        }
        if weights[i] > 0 {
            any = true;
        }
        i = i + 1;
    }
    proof {
        assert(weights@.subrange(0, weights@.len() as int) =~= weights@);
        lemma_total_grows(weights@);
    }
    (total <= u32::MAX as u64, any)
}

/// A prefix of the weights sums to no more than all of them.
proof fn lemma_total_grows(weights: Seq<u32>)
    ensures
        forall|i: int| 0 <= i <= weights.len() ==> crate::rng::total_weight(#[trigger] weights.subrange(0, i)) <= crate::rng::total_weight(weights),
    decreases weights.len(),
{
    if weights.len() > 0 {
        lemma_total_grows(weights.drop_last());
        assert forall|i: int| 0 <= i <= weights.len() implies crate::rng::total_weight(#[trigger] weights.subrange(0, i))
            <= crate::rng::total_weight(weights) by {
            if i < weights.len() {
                assert(weights.subrange(0, i) =~= weights.drop_last().subrange(0, i));
            } else {
                assert(weights.subrange(0, i) =~= weights);
            }
        }
    }
}

impl CharactersLoader {
    /// Whether the templates can populate level `level`: distinct ids,
    /// weights whose sum fits a `u32`, and one that is not 0.
    pub fn check_level(&self, level: u32) -> (r: (bool, bool, bool))
        ensures
            r.0 == ids_distinct(self.ids()),
            r.1 == (crate::rng::total_weight(char_weights(self, level as int)) <= u32::MAX),
            r.2 == crate::rng::some_weight(char_weights(self, level as int)),
    {
        let mut ids: Vec<&String> = Vec::new();
        let mut i: usize = 0;
        while i < self.char_vals.len()
            invariant
                i <= self.char_vals@.len(),
                ids@.len() == i,
                forall|j: int| 0 <= j < i ==> (#[trigger] ids@[j])@ == self.char_vals@[j].0@,
            decreases self.char_vals@.len() - i,
        {
            ids.push(&self.char_vals[i].0);
            i = i + 1;
        }
        proof {
            assert(ids@.map_values(|s: &String| s@) =~= self.ids());
        }
        let distinct = check_distinct(&ids);
        let (table_ids, weights) = self.weighted_table(level);
        proof {
            assert forall|k: int| 0 <= k < weights@.len() implies weights@[k] == char_weights(self, level as int)[k] by {
                assert(table_ids@[k]@ == self.char_vals@[k].0@);
                lemma_weight_bound(self.char_vals@[k].1.spawn_chances@, level as int);
            }
            assert(weights@ =~= char_weights(self, level as int));
        }
        let (fits, any) = check_weights(&weights);
        (distinct, fits, any)
    }

    /// Whether the template with id `id` exists.
    pub fn has(&self, id: &str) -> (r: bool)
        ensures
            r == (id_pos(self.ids(), id@) >= 0),
    {
        proof {
            lemma_id_pos(self.ids(), id@);
        }
        let key = id.to_owned();
        let mut i: usize = 0;
        while i < self.char_vals.len()
            invariant
                i <= self.char_vals@.len(),
                key@ == id@,
                forall|j: int| 0 <= j < i ==> self.ids()[j] != id@,
            decreases self.char_vals@.len() - i,
        {
            if self.char_vals[i].0 == key {
                proof {
                    assert(self.ids()[i as int] == id@);
                    lemma_id_pos(self.ids(), id@);
                }
                return true;
            }
            i = i + 1;
        }
        false
    }
}

impl ItemsLoader {
    /// Whether the templates can populate level `level`: distinct ids,
    /// weights whose sum fits a `u32`, and one that is not 0.
    pub fn check_level(&self, level: u32) -> (r: (bool, bool, bool))
        ensures
            r.0 == ids_distinct(self.ids()),
            r.1 == (crate::rng::total_weight(item_weights(self, level as int)) <= u32::MAX),
            r.2 == crate::rng::some_weight(item_weights(self, level as int)),
    {
        let mut ids: Vec<&String> = Vec::new();
        let mut i: usize = 0;
        while i < self.item_vals.len()
            invariant
                i <= self.item_vals@.len(),
                ids@.len() == i,
                forall|j: int| 0 <= j < i ==> (#[trigger] ids@[j])@ == self.item_vals@[j].0@,
            decreases self.item_vals@.len() - i,
        {
            ids.push(&self.item_vals[i].0);
            i = i + 1;
        }
        proof {
            assert(ids@.map_values(|s: &String| s@) =~= self.ids());
        }
        let distinct = check_distinct(&ids);
        let (table_ids, weights) = self.weighted_table(level);
        proof {
            assert forall|k: int| 0 <= k < weights@.len() implies weights@[k] == item_weights(self, level as int)[k] by {
                assert(table_ids@[k]@ == self.item_vals@[k].0@);
                lemma_weight_bound(self.item_vals@[k].1.spawn_chances@, level as int);
            }
            assert(weights@ =~= item_weights(self, level as int));
        }
        let (fits, any) = check_weights(&weights);
        (distinct, fits, any)
    }

    /// Whether the template with id `id` exists.
    pub fn has(&self, id: &str) -> (r: bool)
        ensures
            r == (id_pos(self.ids(), id@) >= 0),
    {
        proof {
            lemma_id_pos(self.ids(), id@);
        }
        let key = id.to_owned();
        let mut i: usize = 0;
        while i < self.item_vals.len()
            invariant
                i <= self.item_vals@.len(),
                key@ == id@,
                forall|j: int| 0 <= j < i ==> self.ids()[j] != id@,
            decreases self.item_vals@.len() - i,
        {
            if self.item_vals[i].0 == key {
                proof {
                    assert(self.ids()[i as int] == id@);
                    lemma_id_pos(self.ids(), id@);
                }
                return true;
            }
            i = i + 1;
        }
        false
    }
}

} // verus!
