[package]
name = "entity_graph"
version = "0.1.0"
edition = "2021"
publish = false

[dependencies]
smallvec = "=1.16.4"
bevy = { version = "=0.17.3", default-features = false, features = ["std", "bevy_log"] }
