[package]
name = "needle"
version = "0.1.0"
edition = "2021"
publish = false

[dependencies]
libm = "0.2"
wasm-bindgen = "0.2"
js-sys = "0.3"
pyo3 = { version = "0.22", features = ["abi3-py38", "extension-module"] }
