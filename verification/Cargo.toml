[package]
name = "sc2_bank_signer"
version = "0.1.0"
edition = "2021"
publish = false

[dependencies]
sha1 = "*"
hex = "*"
xml-rs = "*"
clap = { version = "*", features = ["derive"] }
log = "*"
env_logger = "*"
