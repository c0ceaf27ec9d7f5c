[package]
name = "movable"
version = "0.1.0"
edition = "2021"
publish = false

[dependencies]
bevy = { version = "0.10", default-features = false }
strum = "0.24"
strum_macros = "0.24"
