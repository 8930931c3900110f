[package]
name = "ticit"
version = "0.1.0"
edition = "2021"
publish = false

[dependencies]
num-complex = "0.4"
thiserror = "2"
numpy = "*"
pyo3 = { version = "*", features = ["abi3-py310"] }

[dev-dependencies]
binar = "*"
paulimer = "0.2"
rand = "*"
