[package]
name = "ap_kcp"
version = "0.1.0"
edition = "2021"
publish = false

[dependencies]
async-trait = "0.1"
bytes = "1"
clap = "2"
env_logger = "0.8"
futures = "0.3"
log = "0.4"
num_cpus = "1"
ring = "0.16"
smol = "1"
