[package]
name = "breezy"
version = "0.1.0"
edition = "2021"
publish = false

[dependencies]
regex = "1"
memchr = "2"
xmltree = "0.10"
pyo3 = "0.17"
