use expt01::cfg::{MAP_HEIGHT, MAP_WIDTH, color_dark_wall, color_dark_wall_bg, color_light_ground, color_light_ground_bg};
use expt01::cmtp::{
    self, Ai, Color, DeathCallback, DialogKind, Equipment, Item, MapCell, MapObject, OwnedItem, PlayerAction,
    PlayerState, Slot, Symbol,
};
use expt01::engine::asset::{Character, CharactersLoader, ItemsLoader, SpawnChance};
use expt01::engine::game::World;
use expt01::systems::dungeon::{
    self, build_level, create_h_tunnel, create_room, create_v_tunnel, fill_walls, from_dungeon_level, is_exiting_to_main_menu,
    needs_assets, spawn_stairs, DungeonRequest, Rect, RoomDraw, Transition,
};
use expt01::systems::fov::{apply_fov, fov_cells, needs_fov};
use expt01::systems::render::{bar_text, cell_sprite, get_names_under_mouse, level_text, objects_to_draw, option_line};

const W: usize = MAP_WIDTH as usize;
const H: usize = MAP_HEIGHT as usize;

fn grey() -> Color {
    Color { r: 192, g: 209, b: 204 }
}

fn rock() -> MapCell {
    MapCell { block: true, explored: false, block_sight: true, in_fov: false }
}

fn at(x: usize, y: usize) -> usize {
    y * W + x
}

fn chance(from_level: u32, probability_weight: u32) -> SpawnChance {
    SpawnChance { from_level, probability_weight }
}

fn item_template(name: &str, item: Item, equipment: Option<Equipment>, chances: Vec<SpawnChance>) -> expt01::engine::asset::Item {
    expt01::engine::asset::Item {
        symbol: Symbol { x: 0, y: 0, glyph: '!', color: grey() },
        map_object: MapObject { name: name.to_string(), block: false, always_visible: false, hidden: false },
        item: OwnedItem { item, owner: 0 },
        equipment,
        ammo: None,
        spawn_chances: chances,
    }
}

fn char_template(name: &str, ai: Option<Ai>, chances: Vec<SpawnChance>) -> Character {
    Character {
        symbol: Symbol { x: 0, y: 0, glyph: 'o', color: grey() },
        map_object: MapObject { name: name.to_string(), block: true, always_visible: false, hidden: false },
        character: cmtp::Character {
            alive: false,
            level: 1,
            hp: 100,
            base_max_hp: 100,
            base_defense: 1,
            base_power: 4,
            xp: 0,
            on_death: DeathCallback::Player,
            looking_right: false,
        },
        ai,
        spawn_chances: chances,
    }
}

fn items() -> ItemsLoader {
    ItemsLoader::new(vec![
        ("medkit".to_string(), item_template("Medkit", Item::Medkit, None, vec![chance(1, 35)])),
        (
            "pipe".to_string(),
            item_template(
                "Pipe",
                Item::Melee,
                Some(Equipment { slot: Slot::Hands, equipped: true, max_hp_bonus: 0, defense_bonus: 0, power_bonus: 2 }),
                vec![],
            ),
        ),
    ])
}

fn characters() -> CharactersLoader {
    CharactersLoader::new(vec![
        ("player".to_string(), char_template("player", None, vec![])),
        ("rat".to_string(), char_template("Rat", Some(Ai::Basic), vec![chance(1, 80)])),
    ])
}

#[test]
fn rectangles_have_centers_and_overlap() {
    let a = Rect::new(2, 3, 4, 6);
    assert_eq!((a.x1, a.y1, a.x2, a.y2), (2, 3, 6, 9));
    assert_eq!(a.center(), (4, 6));
    assert!(a.intersects_with(&Rect::new(6, 9, 2, 2)));
    assert!(!a.intersects_with(&Rect::new(7, 3, 2, 2)));
}

#[test]
fn rooms_and_tunnels_clear_rock() {
    let mut map = vec![rock(); W * H];
    create_room(Rect::new(2, 3, 4, 4), &mut map);
    for y in 0..H {
        for x in 0..W {
            let inside = (3..6).contains(&x) && (4..7).contains(&y);
            assert_eq!(map[at(x, y)].block, !inside, "cell ({}, {})", x, y);
            assert_eq!(map[at(x, y)].block_sight, !inside);
        }
    }
    create_h_tunnel(20, 10, 15, &mut map);
    assert!((10..=20).all(|x| !map[at(x, 15)].block));
    assert!(map[at(9, 15)].block && map[at(21, 15)].block);
    create_v_tunnel(5, 8, 30, &mut map);
    assert!((5..=8).all(|y| !map[at(30, y)].block));
    assert!(map[at(30, 4)].block && map[at(30, 9)].block);
}

#[test]
fn values_change_with_the_dungeon_level() {
    let table = [
        Transition { level: 1, value: 2 },
        Transition { level: 4, value: 3 },
        Transition { level: 6, value: 5 },
    ];
    assert_eq!(from_dungeon_level(&table, 0), 0);
    assert_eq!(from_dungeon_level(&table, 1), 2);
    assert_eq!(from_dungeon_level(&table, 5), 3);
    assert_eq!(from_dungeon_level(&table, 6), 5);
    assert_eq!(from_dungeon_level(&table, 60), 5);
    assert_eq!(from_dungeon_level(&[], 3), 0);
}

#[test]
fn walls_fill_the_map_and_stairs_stand_on_it() {
    let mut w = World::default();
    fill_walls(&mut w);
    assert_eq!(w.map.len(), W * H);
    assert!(w.map.iter().all(|c| c.block && c.block_sight && !c.explored));
    spawn_stairs(&mut w, 4, 5);
    let id = w.id_count;
    let (sym, obj, _, _) = w.get_map_obj(id).unwrap();
    assert_eq!((sym.x, sym.y, sym.glyph), (4, 5, '\u{A4}'));
    assert_eq!(obj.name, "stairs");
    assert!(obj.always_visible);
    assert!(dungeon::is_blocked(0, 0, &w));
}

#[test]
fn a_new_game_builds_the_first_level() {
    let mut w = World::default();
    w.player.state = PlayerState::MakingTurn;
    assert!(needs_assets(&w));
    let (cl, il) = (characters(), items());
    let assets = Some((Ok(&cl), Ok(&il)));
    assert!(dungeon::is_ready(&w, &assets));
    assert_eq!(dungeon::update(&mut w, assets), DungeonRequest::Nothing);
    assert!(!needs_assets(&w));
    assert_eq!(w.map.len(), W * H);
    assert_eq!(w.player.dungeon_level, 1);
    for x in 0..W {
        assert!(w.map[at(x, 0)].block && w.map[at(x, H - 1)].block);
    }
    for y in 0..H {
        assert!(w.map[at(0, y)].block && w.map[at(W - 1, y)].block);
    }
    let p = w.player.id;
    let (sym, obj, c, _) = w.get_character(p).unwrap();
    assert_eq!(obj.name, "player");
    assert!(c.alive);
    assert!(!w.map[at(sym.x as usize, sym.y as usize)].block);
    assert_eq!(
        w.log[0].0,
        "Welcome stranger! Prepare to perish in the Abandoned Mines. Press F1 for help.\n"
    );
    assert_eq!(w.count_owned(p), 1);
    let stairs = w.entity_indexes.last().unwrap().0;
    let (ssym, sobj, _, _) = w.get_map_obj(stairs).unwrap();
    assert_eq!(sobj.name, "stairs");
    assert!(!w.map[at(ssym.x as usize, ssym.y as usize)].block);
    // the stairs can be walked to from where the player stands
    let mut seen = vec![false; W * H];
    let mut todo = vec![(sym.x as usize, sym.y as usize)];
    seen[at(sym.x as usize, sym.y as usize)] = true;
    while let Some((x, y)) = todo.pop() {
        for (nx, ny) in [(x + 1, y), (x - 1, y), (x, y + 1), (x, y - 1)] {
            if !w.map[at(nx, ny)].block && !seen[at(nx, ny)] {
                seen[at(nx, ny)] = true;
                todo.push((nx, ny));
            }
        }
    }
    assert!(seen[at(ssym.x as usize, ssym.y as usize)]);
    // everything else placed on the level is a rat or a medkit on floor
    for (id, ix) in w.entity_indexes.iter() {
        if *id == p || *id == stairs || ix.symbol.is_none() || ix.map_object.is_none() {
            continue;
        }
        let (s, o, _, _) = w.get_map_obj(*id).unwrap();
        if o.name == "Pipe" || o.name == "move hint" {
            continue;
        }
        assert!(o.name == "Rat" || o.name == "Medkit", "{}", o.name);
        assert!(!w.map[at(s.x as usize, s.y as usize)].block);
    }
}

#[test]
fn broken_templates_are_reported() {
    let mut w = World::default();
    w.player.state = PlayerState::MakingTurn;
    let il = items();
    let assets = Some((Err("missing field `hp`".to_string()), Ok(&il)));
    dungeon::update(&mut w, assets);
    let d = w.dialogs.last().unwrap();
    assert_eq!(d.kind, DialogKind::MessageBox);
    assert!(d.header.starts_with("Error in the characters config.\n"));
    assert!(d.header.ends_with("missing field `hp`"));
    assert_eq!(w.player.state, PlayerState::InDialog);
}

#[test]
fn cancelling_a_turn_saves_and_leaves() {
    let mut w = World::default();
    w.map = vec![rock(); W * H];
    w.player.state = PlayerState::MakingTurn;
    w.player.action = PlayerAction::Cancel;
    assert!(is_exiting_to_main_menu(&w));
    assert_eq!(dungeon::update(&mut w, None), DungeonRequest::SaveAndLeave);
    assert_eq!(w.player.action, PlayerAction::Nothing);
    w.player.action = PlayerAction::SkipTurn;
    assert_eq!(dungeon::update(&mut w, None), DungeonRequest::Nothing);
}

#[test]
fn the_field_of_view_lights_and_explores() {
    let mut w = World::default();
    w.map = vec![rock(); W * H];
    w.map[1].block = false;
    let p = w.create_entity(
        Some(Symbol { x: 3, y: 2, glyph: '@', color: grey() }),
        None,
        Some(MapObject { name: "player".to_string(), block: true, always_visible: false, hidden: false }),
        Some(char_template("player", None, vec![]).character),
        Some(cmtp::AiOption { option: None }),
        None,
        None,
        None,
        None,
    );
    w.player.id = p;
    let cells = fov_cells(&w);
    assert_eq!(cells.len(), W * H);
    assert_eq!(cells[0], (false, false));
    assert_eq!(cells[1], (false, true));
    assert!(needs_fov(&w));
    let mut visible = vec![false; W * H];
    visible[5] = true;
    apply_fov(&mut w, &visible);
    assert!(w.map[5].in_fov && w.map[5].explored);
    assert!(!w.map[6].in_fov && !w.map[6].explored);
    assert!(!needs_fov(&w));
    apply_fov(&mut w, &vec![false; W * H]);
    assert!(!w.map[5].in_fov && w.map[5].explored);
}

#[test]
fn cells_look_by_what_they_are_and_whether_they_are_seen() {
    let mut map = vec![rock(); W * H];
    assert_eq!(cell_sprite(&map, 0), None);
    for c in map.iter_mut() {
        c.explored = true;
    }
    map[at(1, 1)] = MapCell { block: false, explored: true, block_sight: false, in_fov: true };
    let (fg, bg, glyph) = cell_sprite(&map, at(1, 0)).unwrap();
    assert_eq!((fg, bg, glyph), (color_dark_wall(), color_dark_wall_bg(), '\u{A1}'));
    let (_, _, glyph) = cell_sprite(&map, at(2, 0)).unwrap();
    assert_eq!(glyph, '\u{A0}');
    let (fg, bg, _) = cell_sprite(&map, at(1, 1)).unwrap();
    assert_eq!((fg, bg), (color_light_ground(), color_light_ground_bg()));
}

#[test]
fn objects_are_drawn_blockers_last() {
    let mut w = World::default();
    w.map = vec![MapCell { block: false, explored: true, block_sight: false, in_fov: true }; W * H];
    let mut rat = char_template("Rat", Some(Ai::Basic), vec![]).character;
    rat.alive = true;
    rat.looking_right = true;
    let rat_id = w.create_entity(
        Some(Symbol { x: 2, y: 2, glyph: 'r', color: grey() }),
        None,
        Some(MapObject { name: "Rat".to_string(), block: true, always_visible: false, hidden: false }),
        Some(rat),
        Some(cmtp::AiOption { option: Some(Ai::Basic) }),
        None,
        None,
        None,
        None,
    );
    let kit_id = w.create_entity(
        Some(Symbol { x: 2, y: 2, glyph: '!', color: grey() }),
        None,
        Some(MapObject { name: "Medkit".to_string(), block: false, always_visible: false, hidden: false }),
        None,
        None,
        Some(OwnedItem { item: Item::Medkit, owner: 0 }),
        None,
        None,
        None,
    );
    w.create_entity(
        Some(Symbol { x: 3, y: 2, glyph: '?', color: grey() }),
        None,
        Some(MapObject { name: "secret".to_string(), block: false, always_visible: false, hidden: true }),
        None,
        None,
        None,
        None,
        None,
        None,
    );
    let drawn = objects_to_draw(&w);
    assert_eq!(drawn, vec![(2, 2, '!', grey(), false), (2, 2, 'r', grey(), true)]);

    assert_eq!(get_names_under_mouse(&w), "nothing out of the ordinary");
    w.player.look_at = vec![Some(rat_id), Some(kit_id), None];
    assert_eq!(get_names_under_mouse(&w), "Rat, Medkit");
    w.player.look_at = vec![Some(rat_id), Some(kit_id), Some(kit_id)];
    assert_eq!(get_names_under_mouse(&w), "Rat, Medkit and more...");
    w.remove_entity(kit_id);
    w.player.look_at = vec![Some(kit_id), None, None];
    assert_eq!(get_names_under_mouse(&w), "nothing out of the ordinary");
}

#[test]
fn panel_and_menu_texts() {
    assert_eq!(bar_text("HP", 30, 100), "HP: 30/100");
    assert_eq!(bar_text("XP", -2, 350), "XP: -2/350");
    assert_eq!(level_text(3), "Mine level: 3");
    assert_eq!(option_line(0, &"Medkit".to_string()), "[1] Medkit");
    assert_eq!(option_line(9, &"Pipe (on hands)".to_string()), "[a] Pipe (on hands)");
    assert_eq!(option_line(34, &"Brick".to_string()), "[z] Brick");
}

#[test]
fn a_level_is_built_from_the_rooms_drawn() {
    let mut w = World::default();
    let p = w.create_entity(
        Some(Symbol { x: 5, y: 5, glyph: '@', color: grey() }),
        None,
        Some(MapObject { name: "player".to_string(), block: true, always_visible: false, hidden: false }),
        Some(char_template("player", None, vec![]).character),
        Some(cmtp::AiOption { option: None }),
        None,
        None,
        None,
        None,
    );
    w.player.id = p;
    w.player.dungeon_level = 2;
    let (cl, il) = (characters(), items());
    let first = Rect::new(10, 10, 7, 6);
    let last = Rect::new(30, 20, 6, 6);
    let mut draws = vec![
        RoomDraw { rect: first, coin: false, monsters: vec![(12, 12, 1)], items: vec![] },
        // meets the first room: left out
        RoomDraw { rect: Rect::new(12, 12, 6, 6), coin: false, monsters: vec![], items: vec![] },
        RoomDraw { rect: last, coin: true, monsters: vec![], items: vec![(31, 21, 0)] },
    ];
    while draws.len() < 30 {
        draws.push(RoomDraw { rect: first, coin: false, monsters: vec![], items: vec![] });
    }
    build_level(&mut w, &cl, &il, 2, None, &draws);
    // the player stands in the middle of the first room
    let (sym, _, _, _) = w.get_character(p).unwrap();
    assert_eq!((sym.x, sym.y), (13, 13));
    // the rat and the medkit stand where they were drawn
    let mut rat = false;
    let mut kit = false;
    for (id, ix) in w.entity_indexes.iter() {
        if ix.symbol.is_none() || ix.map_object.is_none() {
            continue;
        }
        let (s, o, _, _) = w.get_map_obj(*id).unwrap();
        if o.name == "Rat" {
            assert_eq!((s.x, s.y), (12, 12));
            rat = true;
        }
        if o.name == "Medkit" {
            assert_eq!((s.x, s.y), (31, 21));
            kit = true;
        }
    }
    assert!(rat && kit);
    // the stairs stand in the middle of the last room
    let stairs = w.entity_indexes.last().unwrap().0;
    let (ssym, sobj, _, _) = w.get_map_obj(stairs).unwrap();
    assert_eq!(sobj.name, "stairs");
    assert_eq!((ssym.x, ssym.y), (33, 23));
    // the tunnel runs along the row first, then down the column
    assert!(!w.map[at(20, 13)].block);
    assert!(!w.map[at(33, 18)].block);
    assert!(w.map[at(20, 18)].block);
    assert!(w.map[at(13, 18)].block);
}
