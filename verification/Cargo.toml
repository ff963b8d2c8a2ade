[package]
name = "pii_vault"
version = "0.2.0"
edition = "2021"
publish = false

[dependencies]
regex = "1"
getrandom = "0.2"
serde = { version = "1", features = ["derive"] }
serde_json = "1"
wasm-bindgen = "0.2"
serde-wasm-bindgen = "0.6"
