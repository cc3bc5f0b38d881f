[package]
name = "playground"
version = "0.1.0"
edition = "2021"
publish = false

[dependencies]
lz4 = "*"
rayon = "*"
log = "*"
env_logger = "*"
thiserror = "*"
rand = "0.8"
