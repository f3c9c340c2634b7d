[package]
name = "vektordb"
version = "0.1.0"
edition = "2021"
publish = false

[dependencies]
crc32fast = "1.4"
rand = { version = "0.8", features = ["small_rng"] }
rayon = "1.10"
parking_lot = "0.12"
memmap2 = "0.9"
thiserror = "1.0"
pyo3 = { version = "0.22", features = ["extension-module", "abi3-py39"] }
numpy = "0.22"
