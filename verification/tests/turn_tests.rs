use expt01::cfg::{INVENTORY_CAPACITY, INVENTORY_WIDTH, MAP_HEIGHT, MAP_WIDTH};
use expt01::cmtp::{
    Ai, AiOption, Character, Color, DeathCallback, DialogKind, Equipment, Item, MapCell, MapObject, OwnedItem,
    PlayerAction, PlayerState, Slot, Symbol,
};
use expt01::engine::game::World;
use expt01::systems::ai::{self, confused_step};
use expt01::systems::character;
use expt01::systems::death;
use expt01::systems::inventory;
use expt01::systems::map_interaction;
use expt01::systems::mouse_look;
use expt01::systems::player_action;

fn white() -> Color {
    Color { r: 255, g: 255, b: 255 }
}

fn lit_floor() -> MapCell {
    MapCell { block: false, explored: true, block_sight: false, in_fov: true }
}

fn fighter(hp: i32, defense: i32, power: i32, xp: i32, on_death: DeathCallback) -> Character {
    Character {
        alive: true,
        level: 1,
        hp,
        base_max_hp: hp,
        base_defense: defense,
        base_power: power,
        xp,
        on_death,
        looking_right: false,
    }
}

fn named(name: &str, block: bool) -> MapObject {
    MapObject { name: name.to_string(), block, always_visible: false, hidden: false }
}

/// A lit map with the player standing at (5, 5), making its turn.
fn game() -> World {
    let mut w = World::default();
    w.map = vec![lit_floor(); (MAP_WIDTH * MAP_HEIGHT) as usize];
    let id = w.create_entity(
        Some(Symbol { x: 5, y: 5, glyph: '@', color: white() }),
        None,
        Some(named("player", true)),
        Some(fighter(100, 1, 4, 0, DeathCallback::Player)),
        Some(AiOption { option: None }),
        None,
        None,
        None,
        None,
    );
    w.player.id = id;
    w.player.state = PlayerState::MakingTurn;
    w
}

fn add_monster(w: &mut World, name: &str, x: i32, y: i32, c: Character, ai: Ai) -> u32 {
    w.create_entity(
        Some(Symbol { x, y, glyph: 'r', color: white() }),
        None,
        Some(named(name, true)),
        Some(c),
        Some(AiOption { option: Some(ai) }),
        None,
        None,
        None,
        None,
    )
}

fn add_item(w: &mut World, name: &str, item: Item, owner: u32, x: i32, y: i32, equipment: Option<Equipment>) -> u32 {
    let hidden = owner != 0;
    w.create_entity(
        Some(Symbol { x, y, glyph: '!', color: white() }),
        None,
        Some(MapObject { name: name.to_string(), block: false, always_visible: false, hidden }),
        None,
        None,
        Some(OwnedItem { item, owner }),
        equipment,
        None,
        None,
    )
}

fn pos(w: &World, id: u32) -> (i32, i32) {
    let s = w.get_map_obj(id).unwrap().0;
    (s.x, s.y)
}

fn hp(w: &World, id: u32) -> i32 {
    w.get_character(id).unwrap().2.hp
}

fn last_log(w: &World) -> String {
    w.log.last().unwrap().0.clone()
}

/// Puts rock all around the edge of the map.
fn wall_in(w: &mut World) {
    let (wd, ht) = (MAP_WIDTH as usize, MAP_HEIGHT as usize);
    for x in 0..wd {
        w.map[x].block = true;
        w.map[(ht - 1) * wd + x].block = true;
    }
    for y in 0..ht {
        w.map[y * wd].block = true;
        w.map[y * wd + wd - 1].block = true;
    }
}

fn player_act(w: &mut World, action: PlayerAction) {
    w.player.action = action;
    assert!(player_action::is_ready(w));
    player_action::update(w);
}

#[test]
fn the_player_walks_and_faces_its_way() {
    let mut w = game();
    let p = w.player.id;
    player_act(&mut w, PlayerAction::GoToRight);
    assert_eq!(pos(&w, p), (6, 5));
    assert!(w.get_character(p).unwrap().2.looking_right);
    player_act(&mut w, PlayerAction::GoToDownLeft);
    assert_eq!(pos(&w, p), (5, 6));
    assert!(!w.get_character(p).unwrap().2.looking_right);
    player_act(&mut w, PlayerAction::LookAt(9, 9));
    assert_eq!(w.player.looking_at, Some((9, 9)));
}

#[test]
fn walking_into_a_monster_attacks_it() {
    let mut w = game();
    let rat = add_monster(&mut w, "Rat", 6, 5, fighter(10, 0, 2, 10, DeathCallback::Monster), Ai::Basic);
    player_act(&mut w, PlayerAction::GoToRight);
    assert_eq!(pos(&w, w.player.id), (5, 5));
    assert_eq!(last_log(&w), "player attacks Rat for 4 hit points.");
    assert_eq!(hp(&w, rat), 6);
}

#[test]
fn a_click_steps_towards_the_cell_and_skips_the_turn() {
    let mut w = game();
    player_act(&mut w, PlayerAction::ClickAt(9, 5));
    assert_eq!(pos(&w, w.player.id), (6, 5));
    assert_eq!(w.player.action, PlayerAction::SkipTurn);
}

#[test]
fn monsters_in_view_walk_up_and_then_attack() {
    let mut w = game();
    let rat = add_monster(&mut w, "Rat", 8, 5, fighter(10, 0, 4, 10, DeathCallback::Monster), Ai::Basic);
    w.player.action = PlayerAction::SkipTurn;
    // the monsters act only inside a map walled all around
    assert!(!ai::is_ready(&w));
    wall_in(&mut w);
    assert!(ai::is_ready(&w));
    ai::update(&mut w);
    assert_eq!(pos(&w, rat), (7, 5));
    ai::update(&mut w);
    assert_eq!(pos(&w, rat), (6, 5));
    assert!(!w.get_character(rat).unwrap().2.looking_right);
    ai::update(&mut w);
    assert_eq!(pos(&w, rat), (6, 5));
    assert_eq!(last_log(&w), "Rat attacks player for 3 hit points.");
    assert_eq!(hp(&w, w.player.id), 97);
}

#[test]
fn monsters_wait_while_the_player_is_in_a_menu() {
    let mut w = game();
    let rat = add_monster(&mut w, "Rat", 8, 5, fighter(10, 0, 4, 10, DeathCallback::Monster), Ai::Basic);
    w.player.action = PlayerAction::OpenInventory;
    ai::update(&mut w);
    assert_eq!(pos(&w, rat), (8, 5));
}

#[test]
fn confusion_stumbles_and_then_wears_off() {
    let mut w = game();
    let rat = add_monster(&mut w, "Rat", 8, 5, fighter(10, 0, 4, 10, DeathCallback::Monster), Ai::Basic);
    match confused_step(rat, &mut w, Box::new(Ai::Basic), 1, 1, -1) {
        Ai::Confused { previous_ai, num_turns } => {
            assert_eq!(num_turns, 0);
            assert!(matches!(*previous_ai, Ai::Basic));
        },
        Ai::Basic => panic!("still confused for a turn"),
    }
    assert_eq!(pos(&w, rat), (9, 4));
    let back = confused_step(rat, &mut w, Box::new(Ai::Basic), -1, 1, 1);
    assert!(matches!(back, Ai::Basic));
    assert_eq!(pos(&w, rat), (9, 4));
    assert_eq!(last_log(&w), "The Rat is no longer confused!");
}

#[test]
fn a_dead_monster_becomes_remains() {
    let mut w = game();
    let mut c = fighter(0, 0, 4, 10, DeathCallback::Monster);
    c.alive = false;
    let rat = add_monster(&mut w, "Rat", 8, 5, c, Ai::Basic);
    assert!(death::is_ready(&w));
    death::update(&mut w);
    assert_eq!(last_log(&w), "Rat is dead! You gain 10 experience points.");
    assert!(w.get_character(rat).is_none());
    let (sym, obj, _, _) = w.get_map_obj(rat).unwrap();
    assert_eq!(obj.name, "remains of Rat");
    assert!(!obj.block);
    assert_eq!(sym.glyph, '\u{A3}');
    let logs = w.log.len();
    death::update(&mut w);
    assert_eq!(w.log.len(), logs);
}

#[test]
fn the_death_of_the_player_is_told_once() {
    let mut w = game();
    let p = w.player.id;
    let ci = w.get_indexes(p).unwrap().character.unwrap();
    w.characters[ci].alive = false;
    w.characters[ci].hp = -3;
    death::update(&mut w);
    assert_eq!(last_log(&w), "You died!");
    assert_eq!(w.get_character(p).unwrap().0.glyph, '\u{A3}');
    assert_eq!(w.get_character(p).unwrap().2.on_death, DeathCallback::Nothing);
    let logs = w.log.len();
    death::update(&mut w);
    assert_eq!(w.log.len(), logs);
}

#[test]
fn enough_experience_levels_the_player_up() {
    let mut w = game();
    let p = w.player.id;
    let ci = w.get_indexes(p).unwrap().character.unwrap();
    w.characters[ci].xp = 400;
    assert!(character::is_ready(&w));
    character::update(&mut w);
    let c = *w.get_character(p).unwrap().2;
    assert_eq!((c.level, c.xp), (2, 50));
    assert_eq!(last_log(&w), "Your battle skills grow stronger! You reached level 2!");
    let d = w.dialogs.last().unwrap();
    assert_eq!(d.kind, DialogKind::LevelUp);
    assert_eq!(d.header, "Level up! Choose a stat to raise:\n");
    assert_eq!(
        d.options,
        vec!["Constitution (+20 HP, from 100)", "Strength (+1 attack, from 4)", "Agility (+1 defense, from 1)"]
    );
    assert_eq!(w.player.state, PlayerState::InDialog);
    w.player.action = PlayerAction::SelectMenuItem(1);
    character::update(&mut w);
    assert_eq!(w.get_character(p).unwrap().2.base_power, 5);
    assert!(w.dialogs.is_empty());
    assert_eq!(w.player.state, PlayerState::MakingTurn);
}

#[test]
fn constitution_raises_hit_points_too() {
    let mut w = game();
    let p = w.player.id;
    let ci = w.get_indexes(p).unwrap().character.unwrap();
    w.characters[ci].xp = 350;
    character::update(&mut w);
    w.player.action = PlayerAction::SelectMenuItem(0);
    character::update(&mut w);
    let c = *w.get_character(p).unwrap().2;
    assert_eq!((c.base_max_hp, c.hp, c.xp), (120, 120, 0));
}

#[test]
fn items_under_the_player_are_picked_up() {
    let mut w = game();
    let p = w.player.id;
    let kit = add_item(&mut w, "Medkit", Item::Medkit, 0, 5, 5, None);
    w.player.action = PlayerAction::InteractWithMap;
    assert!(map_interaction::is_ready(&w));
    map_interaction::update(&mut w);
    assert_eq!(last_log(&w), "You picked up a Medkit!");
    let (_, obj, owned, _, _) = w.get_item(kit).unwrap();
    assert!(obj.hidden);
    assert_eq!(owned.owner, p);
}

#[test]
fn equipment_picked_up_is_put_on_when_its_slot_is_free() {
    let mut w = game();
    let pipe = add_item(
        &mut w,
        "Pipe",
        Item::Melee,
        0,
        5,
        5,
        Some(Equipment { slot: Slot::Hands, equipped: false, max_hp_bonus: 0, defense_bonus: 0, power_bonus: 2 }),
    );
    w.player.action = PlayerAction::InteractWithMap;
    map_interaction::update(&mut w);
    assert_eq!(last_log(&w), "Equipped Pipe on hands.");
    assert_eq!(w.get_equipped_in_slot(Slot::Hands), Some(pipe));
    assert_eq!(w.power(w.player.id), 6);
}

#[test]
fn a_full_inventory_takes_nothing_more() {
    let mut w = game();
    let p = w.player.id;
    for _ in 0..INVENTORY_CAPACITY {
        add_item(&mut w, "Brick", Item::Brick, p, 0, 0, None);
    }
    let kit = add_item(&mut w, "Medkit", Item::Medkit, 0, 5, 5, None);
    w.player.action = PlayerAction::InteractWithMap;
    map_interaction::update(&mut w);
    assert_eq!(last_log(&w), "Your inventory is full, cannot pick up Medkit.");
    assert_eq!(w.get_item(kit).unwrap().2.owner, 0);
}

#[test]
fn stairs_lead_deeper_after_a_rest() {
    let mut w = game();
    let p = w.player.id;
    w.create_entity(
        Some(Symbol { x: 5, y: 5, glyph: '<', color: white() }),
        None,
        Some(MapObject { name: "stairs".to_string(), block: false, always_visible: true, hidden: false }),
        None,
        None,
        None,
        None,
        None,
        None,
    );
    add_monster(&mut w, "Rat", 8, 5, fighter(10, 0, 4, 10, DeathCallback::Monster), Ai::Basic);
    let ci = w.get_indexes(p).unwrap().character.unwrap();
    w.characters[ci].hp = 20;
    w.player.dungeon_level = 1;
    w.player.action = PlayerAction::InteractWithMap;
    map_interaction::update(&mut w);
    assert_eq!(w.player.dungeon_level, 2);
    let n = w.log.len();
    assert_eq!(w.log[n - 2].0, "You take a moment to rest, and recover your strength.");
    assert_eq!(w.log[n - 1].0, "After a rare moment of peace, you descend deeper into the heart of the mine...");
    assert_eq!(hp(&w, w.player.id), 70);
    assert!(w.map.is_empty());
}

#[test]
fn the_inventory_lists_what_the_player_carries() {
    let mut w = game();
    let p = w.player.id;
    add_item(&mut w, "Medkit", Item::Medkit, p, 0, 0, None);
    add_item(
        &mut w,
        "Pipe",
        Item::Melee,
        p,
        0,
        0,
        Some(Equipment { slot: Slot::Hands, equipped: true, max_hp_bonus: 0, defense_bonus: 0, power_bonus: 2 }),
    );
    add_item(&mut w, "Brick", Item::Brick, 0, 3, 3, None);
    w.player.action = PlayerAction::OpenInventory;
    assert!(inventory::is_ready(&w));
    inventory::update(&mut w);
    let d = w.dialogs.last().unwrap();
    assert_eq!(d.kind, DialogKind::Inventory);
    assert_eq!(d.header, "Press the key next to an item to use it, or Esc to cancel.");
    assert_eq!(d.options, vec!["Medkit", "Pipe (on hands)"]);
    assert_eq!(d.width, INVENTORY_WIDTH);
    assert_eq!(w.player.state, PlayerState::InDialog);
    w.player.action = PlayerAction::Cancel;
    inventory::update(&mut w);
    assert!(w.dialogs.is_empty());
    assert_eq!(w.player.state, PlayerState::MakingTurn);
}

#[test]
fn an_empty_inventory_says_so() {
    let mut w = game();
    w.player.action = PlayerAction::DropItem;
    inventory::update(&mut w);
    let d = w.dialogs.last().unwrap();
    assert_eq!(d.kind, DialogKind::DropItem);
    assert_eq!(d.options, vec!["Inventory is empty."]);
}

#[test]
fn a_medkit_heals_a_wounded_player_and_is_used_up() {
    let mut w = game();
    let p = w.player.id;
    let kit = add_item(&mut w, "Medkit", Item::Medkit, p, 0, 0, None);
    w.player.action = PlayerAction::OpenInventory;
    inventory::update(&mut w);
    w.player.action = PlayerAction::SelectMenuItem(0);
    inventory::update(&mut w);
    let n = w.log.len();
    assert_eq!(w.log[n - 2].0, "You are already at full health.");
    assert_eq!(last_log(&w), "Cancelled");
    assert!(w.get_item(kit).is_some());

    let ci = w.get_indexes(p).unwrap().character.unwrap();
    w.characters[ci].hp = 30;
    w.player.state = PlayerState::MakingTurn;
    w.dialogs.clear();
    w.player.action = PlayerAction::OpenInventory;
    inventory::update(&mut w);
    w.player.action = PlayerAction::SelectMenuItem(0);
    assert!(inventory::is_ready(&w));
    inventory::update(&mut w);
    assert_eq!(last_log(&w), "Your wounds start to feel better!");
    assert_eq!(hp(&w, p), 70);
    assert!(w.get_item(kit).is_none());
    assert!(w.dialogs.is_empty());
    assert_eq!(w.player.state, PlayerState::MakingTurn);
}

#[test]
fn dropped_items_lie_under_the_player() {
    let mut w = game();
    let p = w.player.id;
    let pipe = add_item(
        &mut w,
        "Pipe",
        Item::Melee,
        p,
        0,
        0,
        Some(Equipment { slot: Slot::Hands, equipped: true, max_hp_bonus: 0, defense_bonus: 0, power_bonus: 2 }),
    );
    w.player.action = PlayerAction::DropItem;
    inventory::update(&mut w);
    w.player.action = PlayerAction::SelectMenuItem(0);
    inventory::update(&mut w);
    assert_eq!(last_log(&w), "You dropped a Pipe.");
    let (sym, obj, owned, eqp, _) = w.get_item(pipe).unwrap();
    assert_eq!((sym.x, sym.y), (5, 5));
    assert!(!obj.hidden);
    assert_eq!(owned.owner, 0);
    assert!(!eqp.unwrap().equipped);
}

#[test]
fn looking_remembers_what_lies_there() {
    let mut w = game();
    let rat = add_monster(&mut w, "Rat", 7, 7, fighter(10, 0, 4, 10, DeathCallback::Monster), Ai::Basic);
    let kit = add_item(&mut w, "Medkit", Item::Medkit, 0, 7, 7, None);
    add_item(&mut w, "Brick", Item::Brick, rat, 7, 7, None);
    w.player.action = PlayerAction::LookAt(7, 7);
    assert!(mouse_look::is_ready(&w));
    mouse_look::update(&mut w);
    assert_eq!(w.player.look_at, vec![Some(rat), Some(kit), None]);
    w.player.action = PlayerAction::LookAt(1, 1);
    mouse_look::update(&mut w);
    assert_eq!(w.player.look_at, vec![None, None, None]);
}

fn use_first_item(w: &mut World) {
    w.player.action = PlayerAction::OpenInventory;
    inventory::update(w);
    w.player.action = PlayerAction::SelectMenuItem(0);
    assert!(inventory::is_ready(w));
    inventory::update(w);
}

#[test]
fn the_slingshot_reaches_exactly_its_range() {
    let mut w = game();
    let p = w.player.id;
    // five columns and one row away: farther than a range of 5
    let rat = add_monster(&mut w, "Rat", 10, 6, fighter(50, 0, 1, 5, DeathCallback::Monster), Ai::Basic);
    add_item(&mut w, "Steel Balls", Item::SlingshotAmmo, p, 0, 0, None);
    use_first_item(&mut w);
    let n = w.log.len();
    assert_eq!(w.log[n - 2].0, "No enemy is close enough to shoot.");
    assert_eq!(last_log(&w), "Cancelled");
    assert_eq!(hp(&w, rat), 50);

    // five columns away in the same row: within the range
    let mut w = game();
    let p = w.player.id;
    let rat = add_monster(&mut w, "Rat", 10, 5, fighter(50, 0, 1, 5, DeathCallback::Monster), Ai::Basic);
    add_item(&mut w, "Steel Balls", Item::SlingshotAmmo, p, 0, 0, None);
    use_first_item(&mut w);
    assert_eq!(last_log(&w), "A Steel Ball whizzed to a Rat! The damage is 40 hit points.");
    assert_eq!(hp(&w, rat), 10);
}

#[test]
fn a_cartridge_waits_for_a_target_and_then_blasts_around_it() {
    let mut w = game();
    let p = w.player.id;
    let near = add_monster(&mut w, "Rat", 8, 5, fighter(20, 0, 1, 7, DeathCallback::Monster), Ai::Basic);
    let far = add_monster(&mut w, "Bat", 20, 5, fighter(20, 0, 1, 3, DeathCallback::Monster), Ai::Basic);
    let charge = add_item(&mut w, "Blasting Cartridge", Item::BlastingCartridge, p, 0, 0, None);
    use_first_item(&mut w);
    assert_eq!(last_log(&w), "Left-click a target tile to throw the charge, or right-click to cancel.");
    assert_eq!(w.player.state, PlayerState::TargetingTile(charge));
    assert_eq!(hp(&w, near), 20);

    w.player.action = PlayerAction::ClickAt(9, 5);
    assert!(inventory::is_ready(&w));
    inventory::update(&mut w);
    assert_eq!(w.player.state, PlayerState::MakingTurn);
    // the rat (1 away) dies and the player (4 away) is out of the radius
    assert_eq!(hp(&w, near), -5);
    assert_eq!(hp(&w, far), 20);
    assert_eq!(hp(&w, p), 100);
    assert_eq!(w.get_character(p).unwrap().2.xp, 7);
    assert!(w.get_item(charge).is_none());
}

#[test]
fn a_heal_that_would_overflow_is_refused() {
    let mut w = game();
    let p = w.player.id;
    let ci = w.get_indexes(p).unwrap().character.unwrap();
    w.characters[ci].base_max_hp = i32::MAX;
    w.characters[ci].hp = i32::MAX - 10;
    add_item(&mut w, "Medkit", Item::Medkit, p, 0, 0, None);
    w.player.action = PlayerAction::OpenInventory;
    inventory::update(&mut w);
    w.player.action = PlayerAction::SelectMenuItem(0);
    assert!(!inventory::is_ready(&w));
}

#[test]
fn a_step_over_the_left_edge_lands_beyond_it() {
    let mut w = game();
    let p = w.player.id;
    let si = w.get_indexes(p).unwrap().symbol.unwrap();
    w.symbols[si].x = 0;
    // the cell looked at is the last one of the row above, and it is free
    player_act(&mut w, PlayerAction::GoToLeft);
    assert_eq!(pos(&w, p), (-1, 5));
    // with rock there the player stays
    let mut w = game();
    let p = w.player.id;
    let si = w.get_indexes(p).unwrap().symbol.unwrap();
    w.symbols[si].x = 0;
    w.map[4 * MAP_WIDTH as usize + MAP_WIDTH as usize - 1].block = true;
    player_act(&mut w, PlayerAction::GoToLeft);
    assert_eq!(pos(&w, p), (0, 5));
}

#[test]
fn only_the_statistic_chosen_must_fit() {
    let mut w = game();
    let p = w.player.id;
    let ci = w.get_indexes(p).unwrap().character.unwrap();
    w.characters[ci].xp = 400;
    character::update(&mut w);
    // hit points at their largest: raising strength is still fine
    w.characters[ci].hp = i32::MAX;
    w.player.action = PlayerAction::SelectMenuItem(1);
    assert!(character::is_ready(&w));
    character::update(&mut w);
    assert_eq!(w.get_character(p).unwrap().2.base_power, 5);
    assert_eq!(w.get_character(p).unwrap().2.hp, i32::MAX);
    // but constitution would overflow them
    w.characters[ci].xp = 10_000;
    character::update(&mut w);
    w.player.action = PlayerAction::SelectMenuItem(0);
    assert!(!character::is_ready(&w));
}

#[test]
fn cancelling_an_aim_needs_no_fighter() {
    let mut w = World::default();
    w.map = vec![lit_floor(); (MAP_WIDTH * MAP_HEIGHT) as usize];
    // a player without a mind is no full character
    let p = w.create_entity(
        Some(Symbol { x: 5, y: 5, glyph: '@', color: white() }),
        None,
        Some(named("player", true)),
        Some(fighter(100, 1, 4, 0, DeathCallback::Player)),
        None,
        None,
        None,
        None,
        None,
    );
    w.player.id = p;
    let brick = add_item(&mut w, "Brick", Item::Brick, p, 0, 0, None);
    w.player.state = PlayerState::TargetingTile(brick);
    w.player.action = PlayerAction::Cancel;
    assert!(inventory::is_ready(&w));
    inventory::update(&mut w);
    assert_eq!(last_log(&w), "Cancelled");
    assert_eq!(w.player.state, PlayerState::MakingTurn);
    assert!(w.get_item(brick).is_some());
}
