[package]
name = "dedup-engine"
version = "0.1.0"
edition = "2021"
publish = false

[dependencies]
zstd = "*"
chrono = "0.4"
clap = { version = "4", features = ["derive"] }
colored = "*"
comfy-table = "*"
dirs = "*"
indicatif = "*"
notify = "*"
serde = { version = "1", features = ["derive"] }
serde_json = "1"
tokio = { version = "1", features = ["full"] }
