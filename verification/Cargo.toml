[package]
name = "horcrux"
version = "0.1.0"
edition = "2021"
publish = false

[dependencies]
aes-gcm = "=0.10.3"
argon2 = "=0.5.3"
ed25519-dalek = { version = "=2.2.0", features = ["hazmat"] }
frost-core = "=3.0.0"
frost-ed25519 = "=3.0.0"
k256 = "=0.13.4"
rand = "=0.8.8"
solana-pubkey = "=4.4.0"
solana-signature = "=3.6.0"
thiserror = "=2.0.21"
vsss-rs = "=5.4.0"
zeroize = "=1.9.1"
