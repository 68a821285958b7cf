[package]
name = "rts_core"
version = "0.1.0"
edition = "2021"
publish = false

[dependencies]
bevy = { version = "0.8", default-features = false, features = ["render", "bevy_winit", "png", "x11"] }
bevy-inspector-egui = "0.12"
bevy_prototype_lyon = "0.6"
bevy_rapier2d = "0.16"
mapgen = "*"
rand = "0.8"
