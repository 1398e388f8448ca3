[package]
name = "expt01"
version = "0.1.0"
edition = "2021"
publish = false

[dependencies]
rand = "0.7"
serde = { version = "1", features = ["derive"] }
serde_json = "1"
toml = "0.5"
tcod = "0.15"
