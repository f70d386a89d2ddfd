[package]
name = "feed"
version = "0.1.0"
edition = "2021"
publish = false

[dependencies]
segment-tree = "2"
nickel = "0.11"
lazy_static = "1"
serde = { version = "1", features = ["derive"] }
serde_derive = "1"
serde_json = "1"

[dev-dependencies]
rand = "0.8"
