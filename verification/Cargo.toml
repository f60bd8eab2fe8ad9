[package]
name = "game_core"
version = "0.1.0"
edition = "2021"
publish = false

[dependencies]
bevy_ecs = "0.16"
rand = "0.9"
serde = { version = "1", features = ["derive"] }
serde_json = "1"
wasm-bindgen = "0.2"
