[package]
name = "fast_kde"
version = "0.1.0"
edition = "2021"
publish = false

[dependencies]
rayon = "1"
numpy = "0.25"
pyo3 = { version = "0.25", features = ["extension-module"] }
