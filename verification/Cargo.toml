[package]
name = "pvsched_qos"
version = "0.1.0"
edition = "2021"
publish = false

[dependencies]
anyhow = "1"
env_logger = "0.11"
libc = "0.2"
log = "0.4"
