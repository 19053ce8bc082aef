[package]
name = "crate_extract"
version = "0.1.0"
edition = "2021"
publish = false

[dependencies]
toml = "0.8"
cargo_metadata = "*"
walkdir = "*"
structopt = "0.3"
env_logger = "*"
log = "*"
