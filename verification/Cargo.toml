[package]
name = "tower_defense"
version = "0.1.0"
edition = "2021"
publish = false

[dependencies]
bevy = { version = "0.9", default-features = false, features = ["bevy_asset", "bevy_scene", "bevy_winit", "render", "bevy_gltf", "png", "x11"] }
bevy-inspector-egui = { version = "0.14", default-features = false }
bevy_mod_picking = "0.11"
bevy_rapier3d = { version = "0.19", default-features = false, features = ["dim3"] }
