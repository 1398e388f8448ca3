use crate::cmtp::Color;
use vstd::prelude::*;

verus! {

// actual size of the window
pub const SCREEN_WIDTH: i32 = 68;
pub const SCREEN_HEIGHT: i32 = 36;
// size of the map
pub const MAP_WIDTH: i32 = 68;
pub const MAP_HEIGHT: i32 = 30;

// sizes and coordinates relevant for the GUI
pub const BAR_WIDTH: i32 = 20;
pub const PANEL_HEIGHT: i32 = 7;
pub const PANEL_Y: i32 = 30;
pub const MSG_X: i32 = 22;
pub const MSG_WIDTH: i32 = 45;
pub const MSG_HEIGHT: i32 = 6;
pub const INVENTORY_WIDTH: i32 = 40;
pub const CHARACTER_SCREEN_WIDTH: i32 = 30;
pub const LEVEL_SCREEN_WIDTH: i32 = 40;

// parameters for the dungeon generator
pub const ROOM_MAX_SIZE: i32 = 10;
pub const ROOM_MIN_SIZE: i32 = 6;
pub const MAX_ROOMS: usize = 30;

pub const HEAL_AMOUNT: i32 = 40;
pub const SLINGSHOT_DAMAGE: i32 = 40;
pub const SLINGSHOT_RANGE: i32 = 5;
pub const BRICK_RANGE: i32 = 8;
pub const BRICK_NUM_TURNS: i32 = 10;
pub const BLASTING_RADIUS: i32 = 3;
pub const BLASTING_DAMAGE: i32 = 25;

// experience and level-ups
pub const LEVEL_UP_BASE: i32 = 200;
pub const LEVEL_UP_FACTOR: i32 = 150;

// light walls or not
pub const FOV_LIGHT_WALLS: bool = true;
pub const TORCH_RADIUS: i32 = 10;

pub const GROUND_BITMAP: u64 = 0b100010000101000001010001000000001000101000001010000100010000u64;

pub const LIMIT_FPS: i32 = 20;

/// The most inventory entries a player can carry.
pub const INVENTORY_CAPACITY: usize = 35;

/// How many objects under the mouse the player can look at at once.
pub const LOOK_AT_SLOTS: usize = 3;

// player will always be the first object
pub const PLAYER_ID: u32 = 1;

// colors:
#[verifier::allow_in_spec]
pub fn color_lightest_grey() -> Color
    returns
        (Color { r: 192, g: 209, b: 204 }),
{
    Color { r: 192, g: 209, b: 204 }
}

#[verifier::allow_in_spec]
pub fn color_darkest_grey() -> Color
    returns
        (Color { r: 20, g: 24, b: 23 }),
{
    Color { r: 20, g: 24, b: 23 }
}

#[verifier::allow_in_spec]
pub fn color_sepia() -> Color
    returns
        (Color { r: 129, g: 122, b: 119 }),
{
    Color { r: 129, g: 122, b: 119 }
}

#[verifier::allow_in_spec]
pub fn color_dark_sepia() -> Color
    returns
        (Color { r: 92, g: 87, b: 82 }),
{
    Color { r: 92, g: 87, b: 82 }
}

#[verifier::allow_in_spec]
pub fn color_darker_sepia() -> Color
    returns
        (Color { r: 53, g: 50, b: 56 }),
{
    Color { r: 53, g: 50, b: 56 }
}

#[verifier::allow_in_spec]
pub fn color_dark_sky() -> Color
    returns
        (Color { r: 104, g: 127, b: 139 }),
{
    Color { r: 104, g: 127, b: 139 }
}

#[verifier::allow_in_spec]
pub fn color_green() -> Color
    returns
        (Color { r: 79, g: 119, b: 84 }),
{
    Color { r: 79, g: 119, b: 84 }
}

#[verifier::allow_in_spec]
pub fn color_dark_red() -> Color
    returns
        (Color { r: 127, g: 78, b: 77 }),
{
    Color { r: 127, g: 78, b: 77 }
}

#[verifier::allow_in_spec]
pub fn color_orange() -> Color
    returns
        (Color { r: 155, g: 107, b: 77 }),
{
    Color { r: 155, g: 107, b: 77 }
}

#[verifier::allow_in_spec]
pub fn color_dark_wall() -> Color
    returns
        color_dark_sepia(),
{
    color_dark_sepia()
}

#[verifier::allow_in_spec]
pub fn color_dark_wall_bg() -> Color
    returns
        color_darker_sepia(),
{
    color_darker_sepia()
}

#[verifier::allow_in_spec]
pub fn color_light_wall() -> Color
    returns
        color_sepia(),
{
    color_sepia()
}

#[verifier::allow_in_spec]
pub fn color_light_wall_bg() -> Color
    returns
        color_darker_sepia(),
{
    color_darker_sepia()
}

#[verifier::allow_in_spec]
pub fn color_dark_ground() -> Color
    returns
        color_darker_sepia(),
{
    color_darker_sepia()
}

#[verifier::allow_in_spec]
pub fn color_dark_ground_bg() -> Color
    returns
        color_darker_sepia(),
{
    color_darker_sepia()
}

#[verifier::allow_in_spec]
pub fn color_light_ground() -> Color
    returns
        color_dark_sepia(),
{
    color_dark_sepia()
}

#[verifier::allow_in_spec]
pub fn color_light_ground_bg() -> Color
    returns
        color_darker_sepia(),
{
    color_darker_sepia()
}

} // verus!
