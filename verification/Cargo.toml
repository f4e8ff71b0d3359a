[package]
name = "skipkv"
version = "0.1.0"
edition = "2021"
publish = false

[dependencies]
rand = "0.8"
tiny_http = "0.12"

[dev-dependencies]
rand_chacha = "0.3"
