[package]
name = "ipbridge"
version = "0.1.0"
edition = "2021"
publish = false

[dependencies]
anyhow = "1"
clap = { version = "4", features = ["derive"] }
env_logger = "0.11"
flate2 = "1"
log = "0.4"
serde = { version = "1", features = ["derive"] }
socket2 = "0.6"
tokio = { version = "1", features = ["io-util", "macros", "net", "rt-multi-thread", "signal", "time"] }
toml = "0.9"
zstd = "0.13"
