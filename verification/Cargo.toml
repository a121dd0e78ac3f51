[package]
name = "raytracer"
version = "0.1.0"
edition = "2021"
publish = false

[dependencies]
itertools = "*"
raylib = "*"
serde = { version = "*", features = ["derive"] }
serde_json = "*"
