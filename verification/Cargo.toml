[package]
name = "gib2sgf"
version = "0.1.0"
edition = "2021"
publish = false

[dependencies]
linked-hash-map = "0.5"
filetime = "0.2"
wasm-bindgen = "0.2"
wee_alloc = "0.4"
