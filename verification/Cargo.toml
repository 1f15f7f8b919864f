[package]
name = "jtl"
version = "0.1.0"
edition = "2021"
publish = false

[dependencies]
lsp-types = "*"
wasm-bindgen = "*"
serde-wasm-bindgen = "*"
