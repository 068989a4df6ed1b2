[package]
name = "archer"
version = "0.1.0"
edition = "2021"
publish = false

[dependencies]
snap = "1"
rand = "0.8"
serde_json = "1"
