[package]
name = "markup_escape"
version = "0.1.0"
edition = "2021"
publish = false

[dependencies]
pyo3 = "*"
