//! Turning what the player pressed or clicked into the action of the frame.
use crate::cmtp::{PlayerAction, PlayerState, PlayerView};
use crate::engine::game::{World, WorldView};
use vstd::prelude::*;

verus! {

/// The keys the game tells apart.
#[derive(Clone, Copy, Debug, PartialEq, Eq, Structural)]
pub enum KeyCode {
    Escape,
    Up,
    Down,
    Left,
    Right,
    Home,
    PageUp,
    End,
    PageDown,
    Number8,
    NumPad1,
    NumPad2,
    NumPad3,
    NumPad4,
    NumPad5,
    NumPad6,
    NumPad7,
    NumPad9,
    Enter,
    F1,
    /// A key that types a character.
    Text,
    /// Any other key.
    Other,
}

/// A key press, with the character it types (if it is `Text`).
#[derive(Clone, Copy, Debug, PartialEq, Eq, Structural)]
pub struct Key {
    pub code: KeyCode,
    pub printable: char,
}

/// The mouse: its buttons just pressed and the cell it points at.
#[derive(Clone, Copy, Debug, PartialEq, Eq, Structural)]
pub struct Mouse {
    pub lbutton_pressed: bool,
    pub rbutton_pressed: bool,
    pub cx: i32,
    pub cy: i32,
}

/// What happened since the last frame.
#[derive(Clone, Copy, Debug, PartialEq, Eq, Structural)]
pub enum InputEvent {
    Key(Key),
    Mouse(Mouse),
}

/// The option of a menu a typed character picks: `1` to `9` pick the
/// first nine, then `a` to `z`.
pub open spec fn menu_position(key: char) -> Option<usize> {
    if '1' <= key <= '9' {
        Some((key as u32 - '1' as u32) as usize)
    } else if 'a' <= key <= 'z' {
        Some((9 + (key as u32 - 'a' as u32)) as usize)
    } else {
        None
    }
}

pub open spec fn spec_printable_to_action(key: char) -> PlayerAction {
    match menu_position(key) {
        Some(p) => PlayerAction::SelectMenuItem(p),
        None => PlayerAction::Nothing,
    }
}

/// The menu option a typed character picks, as the character's position in
/// `123456789abcdefghijklmnopqrstuvwxyz`.
pub fn printable_to_action(key: char) -> (r: PlayerAction)
    ensures
        r == spec_printable_to_action(key),
{
    let k = key as u32;
    if '1' as u32 <= k && k <= '9' as u32 {
        PlayerAction::SelectMenuItem((k - '1' as u32) as usize)
    } else if 'a' as u32 <= k && k <= 'z' as u32 {
        PlayerAction::SelectMenuItem((9 + (k - 'a' as u32)) as usize)
    } else {
        PlayerAction::Nothing
    }
}

/// The action asked for in a dialog (or a menu): Escape cancels, a typed
/// character picks an option.
pub open spec fn dialog_action(event: Option<InputEvent>) -> PlayerAction {
    match event {
        Some(InputEvent::Key(key)) => match key.code {
            KeyCode::Escape => PlayerAction::Cancel,
            KeyCode::Text => spec_printable_to_action(key.printable),
            _ => PlayerAction::Nothing,
        },
        _ => PlayerAction::Nothing,
    }
}

/// The action asked for during a turn: keys move, wait, or open the windows;
/// the mouse looks, clicks, or cancels with its right button.
pub open spec fn turn_action(event: Option<InputEvent>) -> PlayerAction {
    match event {
        Some(InputEvent::Key(key)) => match key.code {
            KeyCode::Escape => PlayerAction::Cancel,
            KeyCode::Up | KeyCode::Number8 => PlayerAction::GoToUp,
            KeyCode::Down | KeyCode::NumPad2 => PlayerAction::GoToDown,
            KeyCode::Left | KeyCode::NumPad4 => PlayerAction::GoToLeft,
            KeyCode::Right | KeyCode::NumPad6 => PlayerAction::GoToRight,
            KeyCode::Home | KeyCode::NumPad7 => PlayerAction::GoToUpLeft,
            KeyCode::PageUp | KeyCode::NumPad9 => PlayerAction::GoToUpRight,
            KeyCode::End | KeyCode::NumPad1 => PlayerAction::GoToDownLeft,
            KeyCode::PageDown | KeyCode::NumPad3 => PlayerAction::GoToDownRight,
            KeyCode::NumPad5 => PlayerAction::SkipTurn,
            KeyCode::Enter => PlayerAction::InteractWithMap,
            KeyCode::F1 => PlayerAction::OpenHelp,
            KeyCode::Text => if key.printable == 'i' {
                PlayerAction::OpenInventory
            } else if key.printable == 'c' {
                PlayerAction::OpenCharInfo
            } else if key.printable == 'd' {
                PlayerAction::DropItem
            } else {
                PlayerAction::Nothing
            },
            _ => PlayerAction::Nothing,
        },
        Some(InputEvent::Mouse(m)) => if m.lbutton_pressed {
            PlayerAction::ClickAt(m.cx, m.cy)
        } else if m.rbutton_pressed {
            PlayerAction::Cancel
        } else {
            PlayerAction::LookAt(m.cx, m.cy)
        },
        None => PlayerAction::Nothing,
    }
}

/// The action of the frame, by what the player is doing.
pub open spec fn input_action(state: PlayerState, event: Option<InputEvent>) -> PlayerAction {
    match state {
        PlayerState::MakingTurn | PlayerState::TargetingTile(_) => turn_action(event),
        _ => dialog_action(event),
    }
}

/// Sets the action of the frame from the event (if any) the player made.
pub fn update(world: &mut World, event: Option<InputEvent>)
    ensures
        final(world)@ == (WorldView {
            player: PlayerView { action: input_action(old(world)@.player.state, event), ..old(world)@.player },
            ..old(world)@
        }),
{
    let ghost pre = world@;
    let action = match world.player.state {
        PlayerState::MakingTurn | PlayerState::TargetingTile(_) => match event {
            Some(InputEvent::Key(key)) => match key.code {
                KeyCode::Escape => PlayerAction::Cancel,
                KeyCode::Up | KeyCode::Number8 => PlayerAction::GoToUp,
                KeyCode::Down | KeyCode::NumPad2 => PlayerAction::GoToDown,
                KeyCode::Left | KeyCode::NumPad4 => PlayerAction::GoToLeft,
                KeyCode::Right | KeyCode::NumPad6 => PlayerAction::GoToRight,
                KeyCode::Home | KeyCode::NumPad7 => PlayerAction::GoToUpLeft,
                KeyCode::PageUp | KeyCode::NumPad9 => PlayerAction::GoToUpRight,
                KeyCode::End | KeyCode::NumPad1 => PlayerAction::GoToDownLeft,
                KeyCode::PageDown | KeyCode::NumPad3 => PlayerAction::GoToDownRight,
                KeyCode::NumPad5 => PlayerAction::SkipTurn,
                KeyCode::Enter => PlayerAction::InteractWithMap,
                KeyCode::F1 => PlayerAction::OpenHelp,
                KeyCode::Text => if key.printable == 'i' {
                    PlayerAction::OpenInventory
                } else if key.printable == 'c' {
                    PlayerAction::OpenCharInfo
                } else if key.printable == 'd' {
                    PlayerAction::DropItem
                } else {
                    PlayerAction::Nothing
                },
                _ => PlayerAction::Nothing,
            },
            Some(InputEvent::Mouse(m)) => if m.lbutton_pressed {
                PlayerAction::ClickAt(m.cx, m.cy)
            } else if m.rbutton_pressed {
                PlayerAction::Cancel
            } else {
                PlayerAction::LookAt(m.cx, m.cy)
            },
            None => PlayerAction::Nothing,
        },
        _ => match event {
            Some(InputEvent::Key(key)) => match key.code {
                KeyCode::Escape => PlayerAction::Cancel,
                KeyCode::Text => printable_to_action(key.printable),
                _ => PlayerAction::Nothing,
            },
            _ => PlayerAction::Nothing,
        },
    };
    world.player.action = action;
    proof {
        assert(world@.player.look_at =~= pre.player.look_at);
    }
}

/// The keys that pick the options of a menu, in order.
pub open spec fn menu_keys() -> Seq<char> {
    "123456789abcdefghijklmnopqrstuvwxyz"@
}

/// The `i`-th key of `123456789abcdefghijklmnopqrstuvwxyz` picks the `i`-th
/// option of a menu, and every other character picks none.
pub proof fn law_menu_keys(i: int, c: char)
    requires
        0 <= i < 35,
    ensures
        spec_printable_to_action(menu_keys()[i]) == PlayerAction::SelectMenuItem(i as usize),
        (forall|j: int| 0 <= j < 35 ==> menu_keys()[j] != c) ==> spec_printable_to_action(c) == PlayerAction::Nothing,
{
    reveal_strlit("123456789abcdefghijklmnopqrstuvwxyz");
    assert(menu_keys().len() == 35);
    if '1' <= c <= '9' {
        let j = (c as u32 - '1' as u32) as int;
        assert(menu_keys()[j] == c);
    } else if 'a' <= c <= 'z' {
        let j = 9 + (c as u32 - 'a' as u32) as int;
        assert(menu_keys()[j] == c);
    }
}

} // verus!
