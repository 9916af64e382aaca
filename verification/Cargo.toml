[package]
name = "mstlo"
version = "0.2.0"
edition = "2021"
publish = false

[dependencies]
pyo3 = { version = "0.28", features = ["extension-module", "abi3-py39"] }
