[package]
name = "readtime"
version = "0.1.0"
edition = "2021"
publish = false

[dependencies]
clap = { version = "4", features = ["derive"] }
colored = "*"
dirs = "*"
env_logger = "*"
eyre = "*"
log = "*"
walkdir = "2"
