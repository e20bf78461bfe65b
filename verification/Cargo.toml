[package]
name = "graphstats"
version = "0.1.0"
edition = "2021"
publish = false

[dependencies]
conv = "0.3"
env_logger = "0.7"
log = "0.4"
rand = "0.7"
structopt = "0.3"
