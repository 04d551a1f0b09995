[package]
name = "rustic_prune"
version = "0.1.0"
edition = "2021"
publish = false

[dependencies]
anyhow = "*"
base64 = "*"
bytesize = "*"
chrono = "*"
clap = { version = "*", features = ["derive"] }
comfy-table = "*"
humantime = "*"
scrypt = "*"
serde = { version = "*", features = ["derive"] }
serde_json = "*"
