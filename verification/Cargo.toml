[package]
name = "niri_state"
version = "0.1.0"
edition = "2021"
publish = false

[dependencies]
niri-ipc = "*"
serde = { version = "1", features = ["derive"] }
serde_json = "1"
