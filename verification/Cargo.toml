[package]
name = "hanzo_core"
version = "0.1.0"
edition = "2021"
publish = false

[dependencies]
blake3 = "1"
serde = { version = "1", features = ["derive"] }
serde_json = "1"
thiserror = "*"
anyhow = "1"
log = "0.4"
hex = "0.4"
hanzo-pqc = "*"
luxprecompile-sys = "*"
