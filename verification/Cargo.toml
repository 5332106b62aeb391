[package]
name = "dice_engine"
version = "0.1.0"
edition = "2021"
publish = false

[dependencies]
bevy = { version = "0.11", default-features = false }
bevy_turborand = "0.6"
serde = { version = "1", features = ["derive"] }
turborand = "0.10"
