[package]
name = "turbopipe"
version = "0.1.0"
edition = "2021"
publish = false

[dependencies]
crossbeam-channel = "0.5"
once_cell = "1"
pyo3 = "*"
