[package]
name = "monotree"
version = "0.1.0"
edition = "2021"
publish = false

[dependencies]
blake2-rfc = "0.2"
blake3 = { version = "1", features = ["pure"] }
digest = "0.8"
sha2 = "0.8"
sha3 = "0.8"
