[package]
name = "qtum-address-rust"
version = "0.1.0"
edition = "2021"
publish = false

[dependencies]
basex-rs = "=0.1.1"
bitcoin_hashes = "=0.9.7"
hex = "=0.4.3"
