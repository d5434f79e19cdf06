[package]
name = "grid_engine"
version = "0.1.0"
edition = "2021"
publish = false

[dependencies]
grid = "*"
serde = { version = "*", features = ["derive"] }
serde_json = "*"
thiserror = "*"
