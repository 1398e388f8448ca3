//! The rules of a small dungeon-crawling game, kept apart from the terminal
//! it is drawn on: the entity store, combat, items, levelling, dungeon
//! generation and the per-frame systems that move the game from one state to
//! the next.

pub mod cfg;
pub mod cmtp;
pub mod engine;
pub mod game;
pub mod rng;
pub mod text;

pub mod systems;
