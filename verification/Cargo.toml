[package]
name = "blocana"
version = "0.1.0"
edition = "2021"
publish = false

[dependencies]
ed25519-dalek = "=3.0.0"
sha2 = "=0.11.0"
hmac = "=0.13.0"
rand = "=0.8.8"
zeroize = "=1.9.1"
