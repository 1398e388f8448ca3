use expt01::cfg::{CHARACTER_SCREEN_WIDTH};
use expt01::cmtp::{Ai, AiOption, Character, Color, DeathCallback, DialogKind, MapObject, PlayerAction, PlayerState, Symbol};
use expt01::engine::game::World;
use expt01::systems::help_menu::{self, HELP_TEXT};
use expt01::systems::input::{self, printable_to_action, InputEvent, Key, KeyCode, Mouse};
use expt01::systems::main_menu::{self, game_loaded, MenuRequest};
use expt01::systems::message_box;
use expt01::systems::stats_menu;

fn player_world() -> World {
    let mut w = World::default();
    let id = w.create_entity(
        Some(Symbol { x: 1, y: 1, glyph: '@', color: Color { r: 1, g: 2, b: 3 } }),
        None,
        Some(MapObject { name: "player".to_string(), block: true, always_visible: false, hidden: false }),
        Some(Character {
            alive: true,
            level: 2,
            hp: 80,
            base_max_hp: 100,
            base_defense: 1,
            base_power: 4,
            xp: 35,
            on_death: DeathCallback::Player,
            looking_right: false,
        }),
        Some(AiOption { option: None::<Ai> }),
        None,
        None,
        None,
        None,
    );
    w.player.id = id;
    w.player.state = PlayerState::MakingTurn;
    w
}

fn key(code: KeyCode) -> Option<InputEvent> {
    Some(InputEvent::Key(Key { code, printable: '\0' }))
}

fn text(c: char) -> Option<InputEvent> {
    Some(InputEvent::Key(Key { code: KeyCode::Text, printable: c }))
}

#[test]
fn an_empty_world_opens_the_main_menu() {
    let mut w = World::default();
    assert_eq!(main_menu::update(&mut w), MenuRequest::Nothing);
    assert_eq!(w.dialogs.len(), 1);
    let menu = &w.dialogs[0];
    assert_eq!(menu.kind, DialogKind::MainMenu);
    assert_eq!(menu.options, vec!["Play a new game", "Continue last game", "Quit"]);
    assert_eq!(menu.width, 24);
    assert_eq!(w.id_count, 1);
}

#[test]
fn the_main_menu_starts_loads_or_quits() {
    let mut w = World::default();
    main_menu::update(&mut w);
    w.player.action = PlayerAction::SelectMenuItem(1);
    assert_eq!(main_menu::update(&mut w), MenuRequest::LoadGame);
    assert_eq!(w.player.state, PlayerState::InDialog);

    w.player.action = PlayerAction::SelectMenuItem(2);
    assert_eq!(main_menu::update(&mut w), MenuRequest::Nothing);
    assert!(w.must_be_destroyed);

    let mut w = World::default();
    main_menu::update(&mut w);
    w.player.action = PlayerAction::Cancel;
    main_menu::update(&mut w);
    assert!(w.must_be_destroyed);

    let mut w = World::default();
    main_menu::update(&mut w);
    w.player.action = PlayerAction::SelectMenuItem(0);
    assert_eq!(main_menu::update(&mut w), MenuRequest::Nothing);
    assert_eq!(w.id_count, 0);
    assert!(w.dialogs.is_empty());
    assert_eq!(w.player.state, PlayerState::MakingTurn);
}

#[test]
fn loading_without_a_save_says_so() {
    let mut w = World::default();
    main_menu::update(&mut w);
    game_loaded(&mut w, None);
    assert_eq!(w.dialogs.last().unwrap().kind, DialogKind::MessageBox);
    assert_eq!(w.dialogs.last().unwrap().header, "\nNo saved game to load.\n");

    let mut w = World::default();
    main_menu::update(&mut w);
    let saved = player_world();
    game_loaded(&mut w, Some(saved));
    assert_eq!(w.id_count, 1);
    assert!(w.dialogs.is_empty());
    assert_eq!(w.player.state, PlayerState::MakingTurn);
}

#[test]
fn a_message_box_holds_the_player_until_cancelled() {
    let mut w = player_world();
    w.add_dialog_box(DialogKind::MessageBox, "hello".to_string(), vec![], 10);
    message_box::update(&mut w);
    assert_eq!(w.player.state, PlayerState::InDialog);
    assert_eq!(w.dialogs.len(), 1);
    w.player.action = PlayerAction::Cancel;
    message_box::update(&mut w);
    assert!(w.dialogs.is_empty());
    assert_eq!(w.player.state, PlayerState::MakingTurn);
}

#[test]
fn help_opens_during_a_turn_only() {
    let mut w = player_world();
    w.player.action = PlayerAction::OpenHelp;
    help_menu::update(&mut w);
    assert_eq!(w.dialogs.len(), 1);
    assert_eq!(w.dialogs[0].header, HELP_TEXT);
    assert_eq!(w.dialogs[0].width, 36);
    assert!(HELP_TEXT.contains("Inventory............I"));

    let mut w = player_world();
    w.player.state = PlayerState::InDialog;
    w.player.action = PlayerAction::OpenHelp;
    help_menu::update(&mut w);
    assert!(w.dialogs.is_empty());
}

#[test]
fn character_information_shows_the_numbers() {
    let mut w = player_world();
    w.player.action = PlayerAction::OpenCharInfo;
    assert!(stats_menu::is_ready(&w));
    stats_menu::update(&mut w);
    assert_eq!(w.dialogs.len(), 1);
    assert_eq!(
        w.dialogs[0].header,
        "Character information\n\nLevel: 2\nExperience: 35\nExperience to level up: 500\n\nMaximum HP: 100\nAttack: 4\nDefense: 1"
    );
    assert_eq!(w.dialogs[0].width, CHARACTER_SCREEN_WIDTH);
    assert!(stats_menu::check_level_up_fits(1000));
    assert!(!stats_menu::check_level_up_fits(i32::MAX / 100));
}

#[test]
fn keys_become_actions_during_a_turn() {
    let mut w = player_world();
    let cases = [
        (key(KeyCode::Escape), PlayerAction::Cancel),
        (key(KeyCode::Up), PlayerAction::GoToUp),
        (key(KeyCode::Number8), PlayerAction::GoToUp),
        (key(KeyCode::NumPad2), PlayerAction::GoToDown),
        (key(KeyCode::Left), PlayerAction::GoToLeft),
        (key(KeyCode::NumPad6), PlayerAction::GoToRight),
        (key(KeyCode::Home), PlayerAction::GoToUpLeft),
        (key(KeyCode::NumPad9), PlayerAction::GoToUpRight),
        (key(KeyCode::End), PlayerAction::GoToDownLeft),
        (key(KeyCode::PageDown), PlayerAction::GoToDownRight),
        (key(KeyCode::NumPad5), PlayerAction::SkipTurn),
        (key(KeyCode::Enter), PlayerAction::InteractWithMap),
        (key(KeyCode::F1), PlayerAction::OpenHelp),
        (text('i'), PlayerAction::OpenInventory),
        (text('c'), PlayerAction::OpenCharInfo),
        (text('d'), PlayerAction::DropItem),
        (text('x'), PlayerAction::Nothing),
        (key(KeyCode::Other), PlayerAction::Nothing),
        (None, PlayerAction::Nothing),
        (
            Some(InputEvent::Mouse(Mouse { lbutton_pressed: true, rbutton_pressed: false, cx: 4, cy: 5 })),
            PlayerAction::ClickAt(4, 5),
        ),
        (
            Some(InputEvent::Mouse(Mouse { lbutton_pressed: false, rbutton_pressed: true, cx: 4, cy: 5 })),
            PlayerAction::Cancel,
        ),
        (
            Some(InputEvent::Mouse(Mouse { lbutton_pressed: false, rbutton_pressed: false, cx: 7, cy: 2 })),
            PlayerAction::LookAt(7, 2),
        ),
    ];
    for (event, action) in cases {
        input::update(&mut w, event);
        assert_eq!(w.player.action, action);
    }
}

#[test]
fn keys_pick_options_in_dialogs() {
    let mut w = player_world();
    w.player.state = PlayerState::InDialog;
    input::update(&mut w, text('3'));
    assert_eq!(w.player.action, PlayerAction::SelectMenuItem(2));
    input::update(&mut w, text('b'));
    assert_eq!(w.player.action, PlayerAction::SelectMenuItem(10));
    input::update(&mut w, key(KeyCode::Escape));
    assert_eq!(w.player.action, PlayerAction::Cancel);
    input::update(&mut w, key(KeyCode::Up));
    assert_eq!(w.player.action, PlayerAction::Nothing);
    assert_eq!(printable_to_action('1'), PlayerAction::SelectMenuItem(0));
    assert_eq!(printable_to_action('9'), PlayerAction::SelectMenuItem(8));
    assert_eq!(printable_to_action('a'), PlayerAction::SelectMenuItem(9));
    assert_eq!(printable_to_action('z'), PlayerAction::SelectMenuItem(34));
    assert_eq!(printable_to_action('0'), PlayerAction::Nothing);
    assert_eq!(printable_to_action('A'), PlayerAction::Nothing);
}
