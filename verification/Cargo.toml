[package]
name = "raincore"
version = "0.1.0"
edition = "2021"
publish = false

[dependencies]
dotrain = "=6.0.1-alpha.24"
rain-metadata = "=0.0.2-alpha.6"
serde = { version = "*", features = ["derive"] }
serde_json = "*"
anyhow = "*"

[dev-dependencies]
serde_bytes = "*"
