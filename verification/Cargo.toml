[package]
name = "ssz_bits"
version = "0.1.0"
edition = "2021"
publish = false

[dependencies]
hex = "0.4"
sha2 = "0.10"
parity-scale-codec = "3"
serde = "1"
