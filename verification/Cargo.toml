[package]
name = "quorum_will"
version = "0.1.0"
edition = "2021"
publish = false

[dependencies]
aes-gcm-siv = "0.11"
bincode = "1"
clap = { version = "4", features = ["cargo"] }
env_logger = "0.11"
hex = "0.4"
itertools = "0.13"
log = "0.4"
serde = { version = "1", features = ["derive"] }
