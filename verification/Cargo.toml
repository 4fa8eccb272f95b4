[package]
name = "rust_json_parser"
version = "0.1.0"
edition = "2021"
publish = false

[dependencies]
rustc_apfloat = "*"
pyo3 = { version = "*", features = ["extension-module"] }
