[package]
name = "life_lecture"
version = "0.1.0"
edition = "2021"
publish = false

[dependencies]
fastrand = "2"
regex = "1"
bevy = { version = "0.16", default-features = false, features = ["std", "bevy_pbr", "bevy_ui", "bevy_gltf", "bevy_scene", "bevy_animation", "bevy_core_pipeline", "bevy_window", "bevy_text", "bevy_state"] }
