[package]
name = "program_structure"
version = "0.1.0"
edition = "2021"
publish = false

[dependencies]
num-bigint = "=0.4.8"
clap = { version = "=4.6.7", features = ["derive"] }
pretty_env_logger = "=0.5.0"
log = "0.4"
