[package]
name = "embedded_parity"
version = "0.1.0"
edition = "2021"
publish = false

[dependencies]
numpy = "*"
pyo3 = "*"
rayon = "*"
