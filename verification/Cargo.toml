[package]
name = "match_engine"
version = "0.1.0"
edition = "2021"
publish = false

[dependencies]
zstd = "*"
clap = { version = "*", features = ["derive"] }
log = "*"
simple_logger = "*"
rand = "*"
