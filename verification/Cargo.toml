[package]
name = "rsure"
version = "0.1.0"
edition = "2021"
publish = false

[dependencies]
sha1 = "*"
chrono = "*"
flate2 = "*"
log = "*"
env_logger = "*"
structopt = "*"
