[package]
name = "rerecast"
version = "0.1.0"
edition = "2021"
publish = false

[dependencies]
anyhow = "1"
base64 = "0.22"
bincode = { version = "2", features = ["serde"] }
glam = "0.30"
serde = { version = "1", features = ["derive"] }
serde_json = "1"
thiserror = "2"
