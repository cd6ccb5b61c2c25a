[package]
name = "nicompiler_backend"
version = "0.1.0"
edition = "2021"
publish = false

[dependencies]
indexmap = "2"
regex = "1"
ndarray = "0.15"
numpy = "0.20"
pyo3 = "0.20"
libc = "0.2"
parking_lot = "0.12"
rayon = "1"
maplit = "1"
