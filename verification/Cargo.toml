[package]
name = "lenses"
version = "0.1.0"
edition = "2021"
publish = false

[dependencies]
serde_json = "1"
anyhow = "1"

[dev-dependencies]
nom = "7"
