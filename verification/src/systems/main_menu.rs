//! The main menu: a new game, the saved game, or quitting.
use crate::cmtp::{DialogBox, DialogKind, DialogView, PlayerAction, PlayerState, PlayerView};
use crate::engine::game::{World, WorldView};
use vstd::prelude::*;

verus! {

fn is_main_menu(dialog_box: &DialogBox) -> (r: bool)
    ensures
        r == (dialog_box.kind == DialogKind::MainMenu),
{
    dialog_box.kind == DialogKind::MainMenu
}

/// What the main menu asks of the program around it.
#[derive(Clone, Copy, Debug, PartialEq, Eq, Structural)]
pub enum MenuRequest {
    /// Nothing to do.
    Nothing,
    /// Load the saved game and hand it to `game_loaded`.
    LoadGame,
}

/// The choices of the main menu.
pub open spec fn menu_choices() -> Seq<Seq<char>> {
    seq!["Play a new game"@, "Continue last game"@, "Quit"@]
}

/// The world with nothing in it.
pub open spec fn empty_world() -> WorldView {
    WorldView {
        id_count: 0,
        entities: Seq::empty(),
        player: PlayerView {
            id: 0,
            dungeon_level: 0,
            state: PlayerState::InMenu,
            action: PlayerAction::Nothing,
            looking_at: None,
            look_at: seq![None::<u32>, None, None],
            previous_player_position: (0i32, 0i32),
        },
        must_be_destroyed: false,
        symbols: Seq::empty(),
        map: Seq::empty(),
        map_objects: Seq::empty(),
        characters: Seq::empty(),
        ais: Seq::empty(),
        items: Seq::empty(),
        equipments: Seq::empty(),
        ammos: Seq::empty(),
        log: Seq::empty(),
        dialogs: Seq::empty(),
    }
}

/// The main menu is on top of the dialogs.
pub open spec fn menu_is_open(w: WorldView) -> bool {
    w.dialogs.len() > 0 && w.dialogs.last().kind == DialogKind::MainMenu
}

/// The world after a frame of the main-menu system, and what it asks for.
///
/// An empty world gets the main menu. With the menu on top, the player is in
/// a dialog: the first choice starts a new game from an empty world, the
/// second asks for the saved game, and the third (or cancelling) ends the
/// program.
pub open spec fn main_menu_step(w: WorldView) -> (WorldView, MenuRequest) {
    if w.id_count == 0 && w.entities.len() == 0 {
        (
            w.with_dialog(DialogView { kind: DialogKind::MainMenu, header: Seq::empty(), options: menu_choices(), width: 24 }),
            MenuRequest::Nothing,
        )
    } else if menu_is_open(w) {
        let w1 = WorldView { player: PlayerView { state: PlayerState::InDialog, ..w.player }, ..w };
        match w.player.action {
            PlayerAction::SelectMenuItem(0) => (
                WorldView { player: PlayerView { state: PlayerState::MakingTurn, ..empty_world().player }, ..empty_world() },
                MenuRequest::Nothing,
            ),
            PlayerAction::SelectMenuItem(1) => (w1, MenuRequest::LoadGame),
            PlayerAction::SelectMenuItem(2) | PlayerAction::Cancel => (
                WorldView { must_be_destroyed: true, ..w1 },
                MenuRequest::Nothing,
            ),
            _ => (w1, MenuRequest::Nothing),
        }
    } else {
        (w, MenuRequest::Nothing)
    }
}

pub fn update(world: &mut World) -> (r: MenuRequest)
    requires
        old(world)@.wf(),
    ensures
        final(world)@.wf(),
        (final(world)@, r) == main_menu_step(old(world)@),
{
    let ghost pre = world@;
    let world_is_empty = (world.id_count == 0) && world.entity_indexes.len() == 0;
    let menu_is_open = match world.dialogs.last() {
        Some(d) => is_main_menu(d),
        None => false,
    };
    if world_is_empty {
        let choices = vec![
            String::from_str("Play a new game"),
            String::from_str("Continue last game"),
            String::from_str("Quit"),
        ];
        proof {
            assert(choices@.map_values(|o: String| o@) =~= menu_choices());
        }
        world.add_dialog_box(DialogKind::MainMenu, String::new(), choices, 24);
        MenuRequest::Nothing
    } else if menu_is_open {
        world.player.state = PlayerState::InDialog;
        let r = match world.player.action {
            // "Play a new game"
            PlayerAction::SelectMenuItem(0) => {
                *world = World::default();
                world.player.state = PlayerState::MakingTurn;
                MenuRequest::Nothing
            },
            // "Continue last game"
            PlayerAction::SelectMenuItem(1) => MenuRequest::LoadGame,
            // "Quit"
            PlayerAction::SelectMenuItem(2) | PlayerAction::Cancel => {
                world.must_be_destroyed = true;
                MenuRequest::Nothing
            },
            _ => MenuRequest::Nothing,
        };
        proof {
            assert(world@.player.look_at =~= main_menu_step(pre).0.player.look_at);
            assert(world@.entities =~= main_menu_step(pre).0.entities);
            assert(world@.symbols =~= main_menu_step(pre).0.symbols);
            assert(world@.map =~= main_menu_step(pre).0.map);
            assert(world@.map_objects =~= main_menu_step(pre).0.map_objects);
            assert(world@.characters =~= main_menu_step(pre).0.characters);
            assert(world@.ais =~= main_menu_step(pre).0.ais);
            assert(world@.items =~= main_menu_step(pre).0.items);
            assert(world@.equipments =~= main_menu_step(pre).0.equipments);
            assert(world@.ammos =~= main_menu_step(pre).0.ammos);
            assert(world@.log =~= main_menu_step(pre).0.log);
            assert(world@.dialogs =~= main_menu_step(pre).0.dialogs);
        }
        r
    } else {
        MenuRequest::Nothing
    }
}

pub open spec fn no_save_msg() -> Seq<char> {
    "\nNo saved game to load.\n"@
}

/// The world once the saved game was asked for: the saved world, the player
/// making its turn, or, when there was none, a message box saying so.
pub open spec fn loaded_step(w: WorldView, saved: Option<WorldView>) -> WorldView {
    match saved {
        Some(s) => WorldView { player: PlayerView { state: PlayerState::MakingTurn, ..s.player }, ..s },
        None => w.with_dialog(DialogView { kind: DialogKind::MessageBox, header: no_save_msg(), options: seq![], width: 24 }),
    }
}

/// Continues the saved game `saved`, or says there is none to load.
pub fn game_loaded(world: &mut World, saved: Option<World>)
    requires
        old(world)@.wf(),
        old(world).id_count < u32::MAX,
        saved matches Some(s) ==> s@.wf(),
    ensures
        final(world)@.wf(),
        final(world)@ == loaded_step(old(world)@, match saved {
            Some(s) => Some(s@),
            None => None,
        }),
{
    let ghost pre = world@;
    match saved {
        Some(s) => {
            *world = s;
            world.player.state = PlayerState::MakingTurn;
            proof {
                assert(world@.player.look_at =~= s@.player.look_at);
            }
        },
        None => {
            world.add_dialog_box(DialogKind::MessageBox, String::from_str("\nNo saved game to load.\n"), Vec::new(), 24);
            proof {
                assert(world@.dialogs.last().options =~= Seq::<Seq<char>>::empty());
            }
        },
    }
}

} // verus!
