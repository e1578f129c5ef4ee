[package]
name = "abstract_string"
version = "0.1.0"
edition = "2021"
publish = false

[dependencies]
itertools = "0.10"
serde = { version = "1.0", features = ["derive"] }
serde_json = "1.0"
