[package]
name = "light_magic"
version = "0.1.0"
edition = "2021"
publish = false

[dependencies]
aes = "0.8"
ctr = "0.9"
hmac = "0.12"
sha2 = "0.10"
argon2 = "0.5"
rand = "0.8"
zeroize = "1"
parking_lot = "0.12"
