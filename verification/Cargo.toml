[package]
name = "stream_log"
version = "0.1.0"
edition = "2021"
publish = false

[dependencies]
anyhow = "1"
clap = { version = "4", features = ["derive"] }
rmp-serde = "1"
serde_json = "1"
