[package]
name = "migine"
version = "0.1.0"
edition = "2021"
publish = false

[dependencies]
pyo3 = { version = "=0.30.1", features = ["py-clone"] }
pyo3-stub-gen = "=0.23.2"
