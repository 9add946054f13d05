[package]
name = "adblock-rust-compat-checker"
version = "0.1.0"
edition = "2021"
publish = false

[dependencies]
adblock = "=0.12.6"
serde = { version = "=1.0.229", features = ["derive"] }
serde_json = "=1.0.154"
ureq = "=2.12.1"
