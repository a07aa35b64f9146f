[package]
name = "memelay"
version = "0.1.0"
edition = "2021"
publish = false

[dependencies]
rand = "0.9"
memega = "*"
priority-queue = "*"
smallvec = "1"
eyre = "0.6"
color-eyre = "0.6"
pretty_env_logger = "0.5"
clap = { version = "4", features = ["derive"] }
