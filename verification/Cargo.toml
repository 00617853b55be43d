[package]
name = "entity_rust"
version = "0.1.0"
edition = "2021"
publish = false

[dependencies]
regex = "1"
edit-distance = "2"
csv = "1"
serde = { version = "1", features = ["derive"] }
log = "0.4"
env_logger = "*"
