[package]
name = "rhealpixdggs"
version = "0.1.0"
edition = "2021"
publish = false

[dependencies]
rayon = "1"
pyo3 = { version = "*", features = ["abi3-py39"] }
