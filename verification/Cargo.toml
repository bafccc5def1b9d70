[package]
name = "bevy_bsn"
version = "0.1.0"
edition = "2021"
publish = false

[dependencies]
accesskit = "=0.25.2"
bevy_asset = { version = "*", default-features = false }
bevy_platform = "=0.20.1"
bevy_reflect = { version = "*", default-features = false, features = ["std"] }
