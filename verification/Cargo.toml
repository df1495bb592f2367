[package]
name = "wasm_canvas"
version = "0.1.0"
edition = "2021"
publish = false

[dependencies]
rand = "=0.8.8"
serde_json = "1"
