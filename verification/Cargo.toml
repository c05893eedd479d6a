[package]
name = "dazeus_karma"
version = "0.1.0"
edition = "2021"
publish = false

[dependencies]
chrono = "*"
dazeus = "*"
docopt = "*"
env_logger = "*"
log = "*"
