[package]
name = "lpm"
version = "0.1.0"
edition = "2021"
publish = false

[dependencies]
serde_json = { version = "=1.0.151", features = ["float_roundtrip"] }
semver = "=1.0.28"
tar = "=0.4.46"
flate2 = "=1.1.10"
hex = "=0.4.3"
blake2 = "=0.10.6"
crev-recursive-digest = "=0.6.0"
log = "=0.4.34"
env_logger = "=0.11.11"
clap = "=2.34.0"
reqwest = { version = "=0.11.27", default-features = false, features = ["blocking"] }
serde = { version = "=1.0.229", features = ["derive"] }
anyhow = "=1.0.104"
