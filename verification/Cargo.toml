[package]
name = "cuicui_chirp"
version = "0.10.0"
edition = "2021"
publish = false

[dependencies]
smallvec = "1"
thiserror = "1"
anyhow = "1"
miette = "5"
ron = "0.8"
bevy = { version = "0.12", default-features = false, features = ["bevy_asset", "bevy_scene"] }
