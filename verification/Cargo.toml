[package]
name = "static_index"
version = "0.1.0"
edition = "2021"
publish = false

[dependencies]
cmov = "*"
rand = "0.9"
serde = { version = "1", features = ["derive"] }
serde_json = "1"
size = "*"
