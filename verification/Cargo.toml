[package]
name = "banqi"
version = "0.2.5"
edition = "2021"
publish = false

[dependencies]
pyo3 = { version = "0.22", features = ["abi3-py38", "extension-module"] }
wasm-bindgen = "0.2"
