[package]
name = "phl"
version = "0.1.0"
edition = "2021"
publish = false

[dependencies]
serde = { version = "1", features = ["derive"] }
serde_json = "1"
serde_yaml = "0.9"
hex = "0.4"
base64 = "0.22"
ruzstd = "*"
zstd = "*"
semver = "1"
sha2 = "0.10"
fs2 = "0.4"
