[package]
name = "trust_store"
version = "0.1.0"
edition = "2021"
publish = false

[dependencies]
sha2 = "0.10"
toml = "0.8"
serde = { version = "1", features = ["derive"] }
fs2 = "0.4"
