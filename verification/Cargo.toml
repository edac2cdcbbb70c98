[package]
name = "knn_rs"
version = "0.1.0"
edition = "2021"
publish = false

[dependencies]
ndarray = "0.15"
numpy = "0.20"
pyo3 = { version = "0.20", features = ["extension-module", "abi3-py37"] }
