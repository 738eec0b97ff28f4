[package]
name = "continuation_engine"
version = "0.1.0"
edition = "2021"
publish = false

[dependencies]
clap = { version = "*", features = ["derive"] }
critical-section = "*"
env_logger = "*"
log = "*"
serde = "*"
walkdir = "*"
