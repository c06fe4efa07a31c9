[package]
name = "indexer_lib"
version = "0.1.0"
edition = "2021"
publish = false

[dependencies]
ahash = "0.8"
serde = { version = "1", features = ["derive"] }
serde_json = "1"
wasm-bindgen = "0.2"
js-sys = "0.3"
console_error_panic_hook = "0.1"
lazy_static = "1"
