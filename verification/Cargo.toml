[package]
name = "volt_core"
version = "0.1.0"
edition = "2021"
publish = false

[dependencies]
regex-lite = "*"
wasm-bindgen = "*"
console_error_panic_hook = "*"

[dev-dependencies]
serde_json = "*"
