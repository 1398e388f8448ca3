//! The systems that advance the game by one frame, each looking at what the
//! player asked for and changing the world accordingly.
pub mod ai;
pub mod character;
pub mod death;
pub mod dungeon;
pub mod fov;
pub mod help_menu;
pub mod input;
pub mod inventory;
pub mod main_menu;
pub mod map_interaction;
pub mod message_box;
pub mod mouse_look;
pub mod player_action;
pub mod render;
pub mod stats_menu;
