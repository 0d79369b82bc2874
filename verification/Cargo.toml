[package]
name = "authcore"
version = "0.1.0"
edition = "2021"
publish = false

[dependencies]
hmac = "0.12"
sha2 = "0.10"
argon2 = "0.5"
rand = "0.8"
