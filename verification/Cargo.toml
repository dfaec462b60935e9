[package]
name = "brstm"
version = "0.1.0"
edition = "2021"
publish = false

[dependencies]
anyhow = "*"
clap = { version = "*", features = ["derive"] }
env_logger = "*"
log = "*"
rand = "*"
rand_pcg = "*"
thiserror = "*"
