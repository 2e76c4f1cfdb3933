[package]
name = "keyboard_layout_optimizer"
version = "0.1.0"
edition = "2021"
publish = false

[dependencies]
fastrand = "2"
rand = "0.8"
rayon = "1"
rusqlite = { version = "*", features = ["bundled"] }
