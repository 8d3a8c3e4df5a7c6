[package]
name = "wyag"
version = "0.1.0"
edition = "2021"
publish = false

[dependencies]
rust-crypto = "*"
flate2 = "*"
rust-ini = "*"
log = "*"
env_logger = "*"
structopt = "*"
