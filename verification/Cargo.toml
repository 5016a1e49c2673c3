[package]
name = "biotools"
version = "0.1.0"
edition = "2021"
publish = false

[dependencies]
bio = "*"
flate2 = "*"
pyo3 = "*"
