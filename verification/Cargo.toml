[package]
name = "hex_territory"
version = "0.1.0"
edition = "2021"
publish = false

[dependencies]
hexx = { version = "=0.18.0", default-features = false }
bevy = { version = "=0.14.2", default-features = false, features = ["bevy_asset"] }
