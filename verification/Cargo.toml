[package]
name = "bevy_voxel"
version = "0.1.0"
edition = "2021"
publish = false

[dependencies]
bevy = { version = "=0.17.3", default-features = false, features = ["bevy_render"] }
avian3d = "=0.4.1"
