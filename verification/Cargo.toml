[package]
name = "range_proof"
version = "0.1.0"
edition = "2021"
publish = false

[dependencies]
curve25519-dalek = { version = "4", features = ["rand_core", "digest", "alloc"] }
rand = "0.8"
sha2 = "0.10"
subtle = "2"
