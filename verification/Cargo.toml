[package]
name = "adcnet"
version = "0.1.0"
edition = "2021"
publish = false

[dependencies]
aes = "0.8"
aes-gcm = "0.10"
bincode = "1.3"
blake3 = "1"
ed25519-dalek = { version = "2", features = ["rand_core"] }
hex = "0.4"
p256 = { version = "0.13", features = ["ecdh"] }
rand = "0.8"
rand_chacha = "0.3"
serde = { version = "1", features = ["derive"] }
serde_bytes = "0.11"
sha2 = "0.10"
sha3 = "0.10"
thiserror = "1"

[dev-dependencies]
ctr = "0.9"
