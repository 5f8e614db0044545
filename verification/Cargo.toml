[package]
name = "bevy_knyst"
version = "0.1.0"
edition = "2021"
publish = false

[dependencies]
knyst = { version = "=0.4.3", default-features = false }
