[package]
name = "toid"
version = "0.1.0"
edition = "2021"
publish = false

[dependencies]
num = "0.4"
portaudio = "0.7"
serde = { version = "1", features = ["derive"] }
serde_json = "1"
