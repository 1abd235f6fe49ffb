[package]
name = "monarch_mesh"
version = "0.1.0"
edition = "2021"
publish = false

[dependencies]
serde = { version = "*", features = ["derive"] }
futures = "*"
