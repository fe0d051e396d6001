[package]
name = "libxdiffer"
version = "0.1.0"
edition = "2021"
publish = false

[dependencies]
x-diff-rs = "*"
wasm-bindgen = "*"
