[package]
name = "arborium"
version = "0.1.0"
edition = "2021"
publish = false

[dependencies]
serde = { version = "1", features = ["derive"] }
serde-wasm-bindgen = "0.6"
tree-sitter = "*"
walkdir = "2"
wasm-bindgen = "0.2"
