[package]
name = "stringology"
version = "0.1.0"
edition = "2021"
publish = false

[dependencies]
cdivsufsort = "*"
segment-tree = "*"
succinct = "*"
rand = "0.8"
clap = { version = "4", features = ["derive"] }
env_logger = "*"
log = "0.4"
generator = "*"
itertools = "*"
no_deadlocks = "*"
