[package]
name = "luby_transform"
version = "0.1.0"
edition = "2021"
publish = false

[dependencies]
base64 = "*"
wasm-bindgen = "*"
js-sys = "*"
