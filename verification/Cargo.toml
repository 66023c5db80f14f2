[package]
name = "dnx"
version = "0.1.0"
edition = "2021"
publish = false

[dependencies]
blake3 = "1"
rayon = "1"
rnix = "0.12"
rowan = "0.15"
