use expt01::cmtp::{self, Ai, Color, DeathCallback, Equipment, Item, MapObject, OwnedItem, Slot, Symbol};
use expt01::engine::asset::{weight_for_level, Character, CharactersLoader, ItemsLoader, SpawnChance};

fn grey() -> Color {
    Color { r: 192, g: 209, b: 204 }
}

fn chance(from_level: u32, probability_weight: u32) -> SpawnChance {
    SpawnChance { from_level, probability_weight }
}

fn item_template(name: &str, item: Item, equipment: Option<Equipment>, chances: Vec<SpawnChance>) -> expt01::engine::asset::Item {
    expt01::engine::asset::Item {
        symbol: Symbol { x: 0, y: 0, glyph: '!', color: grey() },
        map_object: MapObject { name: name.to_string(), block: false, always_visible: false, hidden: false },
        item: OwnedItem { item, owner: 0 },
        equipment,
        ammo: None,
        spawn_chances: chances,
    }
}

fn char_template(name: &str, ai: Option<Ai>, chances: Vec<SpawnChance>) -> Character {
    Character {
        symbol: Symbol { x: 0, y: 0, glyph: 'o', color: grey() },
        map_object: MapObject { name: name.to_string(), block: true, always_visible: false, hidden: false },
        character: cmtp::Character {
            alive: false,
            level: 1,
            hp: 10,
            base_max_hp: 10,
            base_defense: 0,
            base_power: 3,
            xp: 35,
            on_death: DeathCallback::Monster,
            looking_right: false,
        },
        ai,
        spawn_chances: chances,
    }
}

/// The item templates of a small game: a dummy that may appear on every
/// level, a medkit from level 2 on, and the pipe the player starts with.
fn items() -> ItemsLoader {
    ItemsLoader::new(vec![
        ("medkit".to_string(), item_template("Medkit", Item::Medkit, None, vec![chance(2, 35)])),
        ("dummy".to_string(), item_template("Dummy", Item::Brick, None, vec![chance(1, 1)])),
        (
            "pipe".to_string(),
            item_template(
                "Pipe",
                Item::Melee,
                Some(Equipment { slot: Slot::Hands, equipped: false, max_hp_bonus: 0, defense_bonus: 0, power_bonus: 2 }),
                vec![],
            ),
        ),
    ])
}

/// The character templates of a small game.
fn characters() -> CharactersLoader {
    CharactersLoader::new(vec![
        ("player".to_string(), char_template("player", None, vec![])),
        ("dummy".to_string(), char_template("Dummy", Some(Ai::Basic), vec![chance(1, 1)])),
        ("rat".to_string(), char_template("Rat", Some(Ai::Basic), vec![chance(1, 80), chance(4, 10)])),
    ])
}

#[test]
fn weighted_table_contains_dummy_item() {
    let loader = items();
    let weighted_table = loader.weighted_table(1);
    assert!(weighted_table.0.contains(&"dummy"));
}

#[test]
fn weighted_table_has_non_zero() {
    let loader = items();
    for for_level in 1..15 as u32 {
        let weighted_table = loader.weighted_table(for_level);
        let weighted_table_has_non_zero = weighted_table.1.iter().any(|&weight| weight > 0);
        assert!(
            weighted_table_has_non_zero,
            "The table for level {} has only zeros:\n\t{:?}\nthis is a bug.",
            for_level,
            weighted_table
        );
    }
}

#[test]
fn getting_clone_of_dummy_item() {
    let loader = items();
    let item = loader.get_clone("dummy");
    assert_eq!(item.map_object.name, "Dummy");
}

#[test]
fn weighted_table_contains_dummy_char() {
    let loader = characters();
    let weighted_table = loader.weighted_table(1);
    assert!(weighted_table.0.contains(&"dummy"));
}

#[test]
fn asset_weighted_table_has_non_zero() {
    let loader = characters();
    for for_level in 1..15 as u32 {
        let weighted_table = loader.weighted_table(for_level);
        let weighted_table_has_non_zero = weighted_table.1.iter().any(|&weight| weight > 0);
        assert!(
            weighted_table_has_non_zero,
            "The table for level {} has only zeros:\n\t{:?}\nthis is a bug.",
            for_level,
            weighted_table
        );
    }
}

#[test]
fn getting_clone_of_dummy_char() {
    let loader = characters();
    let char = loader.get_clone("dummy");
    assert_eq!(char.map_object.name, "Dummy");
}

#[test]
fn weight_for_level_takes_the_last_chance_started() {
    let chances = vec![chance(1, 10), chance(3, 20), chance(5, 0)];
    assert_eq!(weight_for_level(&chances, 0), 0);
    assert_eq!(weight_for_level(&chances, 1), 10);
    assert_eq!(weight_for_level(&chances, 2), 10);
    assert_eq!(weight_for_level(&chances, 3), 20);
    assert_eq!(weight_for_level(&chances, 4), 20);
    assert_eq!(weight_for_level(&chances, 5), 0);
    assert_eq!(weight_for_level(&chances, 9), 0);
    assert_eq!(weight_for_level(&[], 9), 0);
}

#[test]
fn weighted_table_lists_ids_and_weights_in_order() {
    let chars = characters();
    let (ids, weights) = chars.weighted_table(4);
    assert_eq!(ids, vec!["player", "dummy", "rat"]);
    assert_eq!(weights, vec![0, 1, 10]);
    let its = items();
    let (ids, weights) = its.weighted_table(1);
    assert_eq!(ids, vec!["medkit", "dummy", "pipe"]);
    assert_eq!(weights, vec![0, 1, 0]);
}

#[test]
fn get_clone_copies_the_whole_template() {
    let pipe = items().get_clone("pipe");
    assert_eq!(pipe.map_object.name, "Pipe");
    assert_eq!(pipe.item.item, Item::Melee);
    assert_eq!(pipe.equipment.unwrap().power_bonus, 2);
    let rat = characters().get_clone("rat");
    assert_eq!(rat.spawn_chances.len(), 2);
    assert_eq!(rat.character.xp, 35);
    assert!(matches!(rat.ai, Some(Ai::Basic)));
}

#[test]
fn loaders_know_their_ids() {
    assert!(characters().has("player"));
    assert!(!characters().has("pipe"));
    assert!(items().has("pipe"));
    assert!(!items().has("player"));
}

#[test]
fn check_level_reports_duplicates_overflow_and_zero_weights() {
    assert_eq!(characters().check_level(1), (true, true, true));
    let twice = CharactersLoader::new(vec![
        ("rat".to_string(), char_template("Rat", None, vec![chance(1, 1)])),
        ("rat".to_string(), char_template("Rat", None, vec![chance(1, 1)])),
    ]);
    assert_eq!(twice.check_level(1), (false, true, true));
    let heavy = CharactersLoader::new(vec![
        ("a".to_string(), char_template("A", None, vec![chance(1, u32::MAX)])),
        ("b".to_string(), char_template("B", None, vec![chance(1, 1)])),
    ]);
    assert_eq!(heavy.check_level(1), (true, false, true));
    assert_eq!(items().check_level(0), (true, true, false));
}

#[test]
fn ai_copy_keeps_confusion() {
    let a = Ai::Confused { previous_ai: Box::new(Ai::Basic), num_turns: 4 };
    match a.copy() {
        Ai::Confused { previous_ai, num_turns } => {
            assert_eq!(num_turns, 4);
            assert!(matches!(*previous_ai, Ai::Basic));
        },
        Ai::Basic => panic!("the copy lost the confusion"),
    }
}
