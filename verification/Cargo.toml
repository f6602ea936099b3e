[package]
name = "rope_sim"
version = "0.1.0"
edition = "2021"
publish = false

[dependencies]
bevy = { version = "0.5", default-features = false, features = ["render", "bevy_gltf", "bevy_winit", "bevy_wgpu", "x11"] }
heron = "0.12"
rand = "0.8"
