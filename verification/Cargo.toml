[package]
name = "skiffa_core"
version = "0.1.0"
edition = "2021"
publish = false

[dependencies]
semver = "=1.0.28"
serde_json = { version = "=1.0.151", features = ["preserve_order"] }
serde_yaml = "=0.9.34"
