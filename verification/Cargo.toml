[package]
name = "kvm_share"
version = "0.1.0"
edition = "2021"
publish = false

[dependencies]
anyhow = "1"
evdev = "0.13"
serde = { version = "1", features = ["derive"] }
serde_json = "1"
snow = "0.10"
toml = "0.8"
