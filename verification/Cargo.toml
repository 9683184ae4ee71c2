[package]
name = "fluidvad"
version = "0.1.0"
edition = "2021"
publish = false

[dependencies]
tract-nnef = "*"
wasm-bindgen = "*"
