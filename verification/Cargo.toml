[package]
name = "needle"
version = "0.1.0"
edition = "2021"
publish = false

[dependencies]
js-sys = "0.3"
libm = "0.2"
pyo3 = { version = "0.23", features = ["abi3-py38", "extension-module"] }
rayon = "1"
serde_json = "1"
wasm-bindgen = "0.2"
web-sys = { version = "0.3", features = ["console"] }
