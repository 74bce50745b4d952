[package]
name = "tas_replay"
version = "0.1.0"
edition = "2021"
publish = false

[dependencies]
anyhow = "1"
imgui = "0.11"
