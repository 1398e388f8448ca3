use expt01::cfg::{MAP_HEIGHT, MAP_WIDTH};
use expt01::cmtp::{
    Ai, AiOption, Character, Color, DeathCallback, Equipment, Item, MapCell, MapObject, OwnedItem, Slot, Symbol,
};
use expt01::engine::game::{new_entity, World};
use expt01::game::{attack_by, dequip, equip, heal, move_by, take_damage};
use expt01::text::{int_to_string, nat_to_string};

fn white() -> Color {
    Color { r: 255, g: 255, b: 255 }
}

fn floor() -> MapCell {
    MapCell { block: false, explored: false, block_sight: false, in_fov: false }
}

fn wall() -> MapCell {
    MapCell { block: true, explored: false, block_sight: true, in_fov: false }
}

/// A world whose map has every cell, all of them floor.
fn open_world() -> World {
    let mut w = World::default();
    w.map = vec![floor(); (MAP_WIDTH * MAP_HEIGHT) as usize];
    w
}

fn fighter(hp: i32, defense: i32, power: i32, xp: i32) -> Character {
    Character {
        alive: true,
        level: 1,
        hp,
        base_max_hp: hp,
        base_defense: defense,
        base_power: power,
        xp,
        on_death: DeathCallback::Monster,
        looking_right: false,
    }
}

fn named(name: &str, block: bool) -> MapObject {
    MapObject { name: name.to_string(), block, always_visible: false, hidden: false }
}

fn add_fighter(w: &mut World, name: &str, x: i32, y: i32, c: Character) -> u32 {
    w.create_entity(
        Some(Symbol { x, y, glyph: '@', color: white() }),
        None,
        Some(named(name, true)),
        Some(c),
        Some(AiOption { option: Some(Ai::Basic) }),
        None,
        None,
        None,
        None,
    )
}

fn add_item(w: &mut World, name: &str, item: Item, owner: u32, equipment: Option<Equipment>) -> u32 {
    w.create_entity(
        Some(Symbol { x: 0, y: 0, glyph: '!', color: white() }),
        None,
        Some(named(name, false)),
        None,
        None,
        Some(OwnedItem { item, owner }),
        equipment,
        None,
        None,
    )
}

fn last_log(w: &World) -> String {
    w.log.last().unwrap().0.clone()
}

#[test]
fn a_new_world_holds_nothing() {
    let w = World::default();
    assert_eq!(w.id_count, 0);
    assert!(w.entity_indexes.is_empty());
    assert!(w.map.is_empty());
    assert!(w.log.is_empty());
    assert_eq!(w.player.dungeon_level, 0);
    assert_eq!(w.player.look_at, vec![None, None, None]);
}

#[test]
fn created_entities_get_fresh_ids_and_keep_their_components() {
    let mut w = open_world();
    let hero = add_fighter(&mut w, "Hero", 3, 4, fighter(30, 2, 5, 0));
    let rat = add_fighter(&mut w, "Rat", 5, 4, fighter(3, 1, 2, 10));
    assert_eq!((hero, rat), (1, 2));
    assert_eq!(w.id_count, 2);
    let (sym, obj, c, _) = w.get_character(rat).unwrap();
    assert_eq!((sym.x, sym.y), (5, 4));
    assert_eq!(obj.name, "Rat");
    assert_eq!(c.hp, 3);
    assert!(w.get_character(7).is_none());
    let built = new_entity()
        .add_symbol(Symbol { x: 1, y: 1, glyph: '>', color: white() })
        .add_map_object(named("stairs", false))
        .create(&mut w);
    assert_eq!(built, 3);
    assert!(w.get_map_obj(built).is_some());
    assert!(w.get_character(built).is_none());
}

#[test]
fn removed_entities_are_gone() {
    let mut w = open_world();
    let hero = add_fighter(&mut w, "Hero", 3, 4, fighter(30, 2, 5, 0));
    let rat = add_fighter(&mut w, "Rat", 5, 4, fighter(3, 1, 2, 10));
    w.remove_entity(rat);
    assert!(w.get_indexes(rat).is_none());
    assert!(w.get_indexes(hero).is_some());
    assert_eq!(w.find_pos(hero), Some(0));
}

#[test]
fn take_damage_kills_at_zero_and_yields_experience() {
    let mut c = fighter(10, 0, 1, 35);
    assert_eq!(take_damage(&mut c, 4), None);
    assert_eq!(c.hp, 6);
    assert!(c.alive);
    assert_eq!(take_damage(&mut c, -3), None);
    assert_eq!(c.hp, 6);
    assert_eq!(take_damage(&mut c, 6), Some(35));
    assert_eq!(c.hp, 0);
    assert!(!c.alive);
}

#[test]
fn an_attack_deals_power_minus_defense() {
    let mut w = open_world();
    let hero = add_fighter(&mut w, "Hero", 3, 4, fighter(30, 2, 5, 0));
    let rat = add_fighter(&mut w, "Rat", 4, 4, fighter(10, 1, 2, 10));
    attack_by(hero, rat, &mut w);
    assert_eq!(last_log(&w), "Hero attacks Rat for 4 hit points.");
    assert_eq!(w.get_character(rat).unwrap().2.hp, 6);
    assert_eq!(w.get_character(hero).unwrap().2.xp, 0);
}

#[test]
fn a_deadly_attack_gives_the_experience_to_the_attacker() {
    let mut w = open_world();
    let hero = add_fighter(&mut w, "Hero", 3, 4, fighter(30, 2, 5, 7));
    let rat = add_fighter(&mut w, "Rat", 4, 4, fighter(3, 1, 2, 10));
    attack_by(hero, rat, &mut w);
    let rat_c = *w.get_character(rat).unwrap().2;
    assert_eq!(rat_c.hp, -1);
    assert!(!rat_c.alive);
    assert_eq!(w.get_character(hero).unwrap().2.xp, 17);
}

#[test]
fn a_weak_attack_has_no_effect() {
    let mut w = open_world();
    let hero = add_fighter(&mut w, "Hero", 3, 4, fighter(30, 2, 5, 0));
    let rat = add_fighter(&mut w, "Rat", 4, 4, fighter(3, 1, 2, 10));
    attack_by(rat, hero, &mut w);
    assert_eq!(last_log(&w), "Rat attacks Hero but it has no effect!");
    assert_eq!(w.get_character(hero).unwrap().2.hp, 30);
}

#[test]
fn healing_stops_at_the_maximum() {
    let mut w = open_world();
    let hero = add_fighter(&mut w, "Hero", 3, 4, fighter(30, 2, 5, 0));
    let ci = w.get_indexes(hero).unwrap().character.unwrap();
    w.characters[ci].hp = 5;
    heal(hero, 10, &mut w);
    assert_eq!(w.get_character(hero).unwrap().2.hp, 15);
    heal(hero, 40, &mut w);
    assert_eq!(w.get_character(hero).unwrap().2.hp, 30);
}

#[test]
fn equipment_adds_its_bonuses_while_equipped() {
    let mut w = open_world();
    let hero = add_fighter(&mut w, "Hero", 3, 4, fighter(30, 2, 5, 0));
    w.player.id = hero;
    let pipe = add_item(
        &mut w,
        "Pipe",
        Item::Melee,
        hero,
        Some(Equipment { slot: Slot::Hands, equipped: false, max_hp_bonus: 3, defense_bonus: 1, power_bonus: 2 }),
    );
    assert_eq!(w.power(hero), 5);
    assert_eq!(w.get_equipped_in_slot(Slot::Hands), None);
    equip(pipe, &mut w);
    assert_eq!(last_log(&w), "Equipped Pipe on hands.");
    assert_eq!((w.power(hero), w.defense(hero), w.max_hp(hero)), (7, 3, 33));
    assert_eq!(w.get_equipped_in_slot(Slot::Hands), Some(pipe));
    assert_eq!(w.get_equipped_in_slot(Slot::Body), None);
    let logs = w.log.len();
    equip(pipe, &mut w);
    assert_eq!(w.log.len(), logs);
    dequip(pipe, &mut w);
    assert_eq!(last_log(&w), "Dequipped Pipe from hands.");
    assert_eq!((w.power(hero), w.defense(hero), w.max_hp(hero)), (5, 2, 30));
}

#[test]
fn only_equipment_can_be_equipped() {
    let mut w = open_world();
    let hero = add_fighter(&mut w, "Hero", 3, 4, fighter(30, 2, 5, 0));
    let kit = add_item(&mut w, "Medkit", Item::Medkit, hero, None);
    equip(kit, &mut w);
    assert_eq!(last_log(&w), "Can't equip Medkit because it's not an Equipment.");
    dequip(kit, &mut w);
    assert_eq!(last_log(&w), "Can't dequip Medkit because it's not an Equipment.");
}

#[test]
fn moves_stop_at_walls_and_blockers() {
    let mut w = open_world();
    let hero = add_fighter(&mut w, "Hero", 1, 1, fighter(30, 2, 5, 0));
    add_fighter(&mut w, "Rat", 3, 1, fighter(3, 1, 2, 10));
    w.map[2 * MAP_WIDTH as usize + 1] = wall();
    let pos = |w: &World| {
        let s = w.get_character(hero).unwrap().0;
        (s.x, s.y)
    };
    move_by(hero, 0, 1, &mut w);
    assert_eq!(pos(&w), (1, 1));
    move_by(hero, 1, 0, &mut w);
    assert_eq!(pos(&w), (2, 1));
    move_by(hero, 1, 0, &mut w);
    assert_eq!(pos(&w), (2, 1));
    move_by(hero, 1, 1, &mut w);
    assert_eq!(pos(&w), (3, 2));
    assert!(w.is_blocked(3, 1));
    assert!(w.is_blocked(1, 2));
    assert!(!w.is_blocked(5, 5));
}

#[test]
fn a_move_over_the_left_edge_looks_at_the_row_above() {
    let mut w = open_world();
    let walker = add_fighter(&mut w, "Walker", 0, 5, fighter(30, 2, 5, 0));
    let stopped = add_fighter(&mut w, "Stopped", 0, 7, fighter(30, 2, 5, 0));
    w.map[6 * MAP_WIDTH as usize + (MAP_WIDTH as usize - 1)] = wall();
    move_by(walker, -1, 0, &mut w);
    let s = w.get_character(walker).unwrap().0;
    assert_eq!((s.x, s.y), (-1, 5));
    move_by(stopped, -1, 0, &mut w);
    let s = w.get_character(stopped).unwrap().0;
    assert_eq!((s.x, s.y), (0, 7));
}


#[test]
fn items_are_counted_by_owner() {
    let mut w = open_world();
    let hero = add_fighter(&mut w, "Hero", 0, 0, fighter(30, 2, 5, 0));
    add_item(&mut w, "Medkit", Item::Medkit, hero, None);
    add_item(&mut w, "Brick", Item::Brick, hero, None);
    add_item(&mut w, "Brick", Item::Brick, 0, None);
    assert_eq!(w.count_owned(hero), 2);
    assert_eq!(w.count_owned(0), 1);
    assert_eq!(w.count_owned(9), 0);
}

#[test]
fn numbers_are_written_in_decimal() {
    assert_eq!(nat_to_string(0), "0");
    assert_eq!(nat_to_string(4071), "4071");
    assert_eq!(int_to_string(-35), "-35");
    assert_eq!(int_to_string(i32::MIN), "-2147483648");
    assert_eq!(int_to_string(120), "120");
    assert_eq!(Slot::Body.to_string(), "body");
    assert_eq!(Slot::Hands.to_string(), "hands");
}
