[package]
name = "chlorophyll"
version = "0.1.0"
edition = "2021"
publish = false

[dependencies]
sha2 = "*"
image = { version = "*", default-features = false, features = ["png", "jpeg", "gif", "webp"] }
anyhow = "*"
clap = { version = "*", features = ["derive"] }
serde = { version = "*", features = ["derive"] }
toml = "*"

[dev-dependencies]
serde_json = "*"
