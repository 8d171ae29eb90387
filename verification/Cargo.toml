[package]
name = "kagi"
version = "0.1.0"
edition = "2021"
publish = false

[dependencies]
sha2 = "0.10"
hmac = "0.12"
hkdf = "0.12"
aes-gcm = "0.10"
p256 = { version = "0.13", features = ["ecdsa"] }
ed25519-dalek = "2"
