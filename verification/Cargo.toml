[package]
name = "vfuzztrie"
version = "0.1.0"
edition = "2021"
publish = false

[dependencies]
bincode = "2"
pyo3 = "0.25"
