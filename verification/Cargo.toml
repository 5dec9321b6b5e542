[package]
name = "bevy_spatialgrid2d"
version = "0.1.0"
edition = "2021"
publish = false

[dependencies]
bevy = { version = "=0.19.1", default-features = false, features = ["std", "bevy_state", "bevy_log"] }
bevy_newtonian2d = "=0.19.1"
rand = "=0.8.8"
smallvec = "=1.16.4"
