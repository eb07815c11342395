[package]
name = "procedural_lightning"
version = "0.1.0"
edition = "2021"
publish = false

[dependencies]
bevy = { version = "=0.17.3", default-features = false, features = ["bevy_gizmos"] }
bevy_hanabi = { version = "=0.17.0", default-features = false, features = ["3d"] }
rand = "=0.8.8"
rand_chacha = "=0.3.1"

[dev-dependencies]
glam = "=0.30.10"
