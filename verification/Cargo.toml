[package]
name = "normalized_string"
version = "0.1.0"
edition = "2021"
publish = false

[dependencies]
unicode-normalization-alignments = "=0.1.12"
onig = { version = "=6.5.3", default-features = false }
pyo3 = "=0.22.6"
