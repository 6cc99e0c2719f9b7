[package]
name = "kfnetlist"
version = "0.1.0"
edition = "2021"
publish = false

[dependencies]
prost = "0.13"
serde = { version = "1", features = ["derive"] }
serde_json = "1"
serde_yaml_ng = "*"
indexmap = { version = "2", features = ["serde"] }
