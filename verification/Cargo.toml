[package]
name = "aspects"
version = "0.1.0"
edition = "2021"
publish = false

[dependencies]
aes = "0.7"
bitvec = "1"
openssl = "0.10"
log = "0.4"
env_logger = "0.10"
