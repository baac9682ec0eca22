[package]
name = "bittorrent_client_rust"
version = "0.1.0"
edition = "2021"
publish = false

[dependencies]
sha1 = "*"
hex = "*"
clap = { version = "*", features = ["derive"] }
tokio = { version = "*", features = ["full"] }
log = "*"
env_logger = "*"
