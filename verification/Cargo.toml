[package]
name = "quantum_nonce"
version = "0.1.0"
edition = "2021"
publish = false

[dependencies]
qip = "0.15"
sha2 = "0.10"
itertools = "0.10"
