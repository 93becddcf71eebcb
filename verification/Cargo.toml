[package]
name = "oxide_forge"
version = "0.1.0"
edition = "2021"
publish = false

[dependencies]
cuda-core = "*"
serde = { version = "1", features = ["derive"] }
