[package]
name = "virolai"
version = "0.1.0"
edition = "2021"
publish = false

[dependencies]
qtty = "*"
serde = { version = "1", features = ["derive"] }
serde_json = "1"
thiserror = "*"
