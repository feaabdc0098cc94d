[package]
name = "event_path"
version = "0.1.0"
edition = "2021"
publish = false

[dependencies]
metrics = "*"
serde = "*"

[dev-dependencies]
serde_json = "*"
