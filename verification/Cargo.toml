[package]
name = "bevy_scene_postprocess"
version = "0.1.0"
edition = "2021"
publish = false

[dependencies]
bevy = { version = "0.15", default-features = false, features = ["bevy_asset", "bevy_scene", "multi_threaded"] }

[dev-dependencies]
crossbeam-channel = "0.5"
