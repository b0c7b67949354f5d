[package]
name = "stat_system"
version = "0.1.0"
edition = "2021"
publish = false

[dependencies]
bevy = { version = "=0.17.3", default-features = false, features = ["bevy_ui", "bevy_sprite", "bevy_text", "bevy_log", "multi_threaded"] }
frunk = "=0.5.0"
dashmap = "=6.2.1"
wacky_bag_hlist = "=0.4.1"
