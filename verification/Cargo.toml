[package]
name = "proteus"
version = "0.1.0"
edition = "2021"
publish = false

[dependencies]
chacha20 = "=0.9.1"
hkdf = "=0.12.4"
hmac = "=0.12.1"
sha2 = "=0.10.9"
x25519-dalek = { version = "=2.0.1", features = ["getrandom", "static_secrets"] }
