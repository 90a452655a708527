[package]
name = "ucp"
version = "0.1.0"
edition = "2021"
publish = false

[dependencies]
crc = "1.8"
rand = "0.8"
async-std = "1"
