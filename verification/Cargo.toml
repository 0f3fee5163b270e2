[package]
name = "generals"
version = "0.1.0"
edition = "2021"
publish = false

[dependencies]
fera-unionfind = "*"
rand = "0.8"
serde = { version = "1", features = ["derive"] }
serde_json = "1"
tungstenite = "*"
log = "0.4"
env_logger = "*"
