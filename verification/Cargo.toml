[package]
name = "mix_compression"
version = "0.1.0"
edition = "2021"
publish = false

[dependencies]
clap = { version = "*", features = ["derive"] }
env_logger = "*"
flate2 = "*"
log = "*"
rand = "*"
tempfile = "*"
