[package]
name = "lsh_dedup"
version = "0.1.0"
edition = "2021"
publish = false

[dependencies]
csv = "1"
pyo3 = "*"
rayon = "1"
