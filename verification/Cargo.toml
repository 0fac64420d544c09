[package]
name = "deschiffres"
version = "0.1.0"
edition = "2021"
publish = false

[dependencies]
itertools = "*"
crossbeam-channel = "0.5"
crossbeam-utils = "0.8"
serde = { version = "1", features = ["derive"] }
serde-wasm-bindgen = "*"
wasm-bindgen = "0.2"
console_error_panic_hook = "0.1"
cfg-if = "1"
wee_alloc = "0.4"
