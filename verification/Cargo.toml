[package]
name = "klotski"
version = "0.1.0"
edition = "2021"
publish = false

[dependencies]
regex = "1"
hecs = "0.10"
glam = { version = "0.24", features = ["mint"] }
lazy_static = "1"
serde = { version = "1", features = ["derive"] }
serde_json = "1"
