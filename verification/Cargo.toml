[package]
name = "open_entities"
version = "0.1.0"
edition = "2021"
publish = false

[dependencies]
bevy_ecs = "*"
serde = { version = "1", features = ["derive"] }
serde_json = "1"
serde_yaml = "*"
yaml_serde = "*"
wasm-bindgen = "*"
serde-wasm-bindgen = "*"
