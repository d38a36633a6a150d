[package]
name = "zts_installer"
version = "0.1.0"
edition = "2021"
publish = false

[dependencies]
rust-lzma = "*"
reqwest = { version = "=0.13.5", default-features = false, features = ["json"] }
tokio = { version = "=1.53.2", features = ["macros", "rt-multi-thread", "fs", "sync", "io-util"] }
futures = "=0.3.34"
serde = { version = "=1.0.229", features = ["derive"] }
serde_json = "=1.0.151"
anyhow = "=1.0.104"
