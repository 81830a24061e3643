[package]
name = "paytoy"
version = "0.1.0"
edition = "2021"
publish = false

[dependencies]
anyhow = "*"
crossbeam-channel = "*"
csv = "*"
env_logger = "*"
hashbrown = "*"
log = "*"
num_cpus = "*"
rust_decimal = "*"
threadpool = "*"
