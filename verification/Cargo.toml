[package]
name = "radius"
version = "0.1.0"
edition = "2021"

[dependencies]
r2pipe = "*"
serde = { version = "*", features = ["derive"] }
serde_json = "*"
