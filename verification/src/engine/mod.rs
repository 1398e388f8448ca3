pub mod asset;
pub mod entity;
pub mod game;
