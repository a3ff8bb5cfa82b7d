[package]
name = "core_cbc_casper"
version = "0.1.0"
edition = "2021"
publish = false

[dependencies]
blake2 = "0.10"
fixed-hash = { version = "0.8", default-features = false }
rayon = "1"
serde = { version = "1", features = ["derive"] }
serde_derive = "1"
