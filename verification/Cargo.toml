[package]
name = "pixel_filters"
version = "0.1.0"
edition = "2021"
publish = false

[dependencies]
console_error_panic_hook = "0.1"
image = { version = "0.25", default-features = false }
wasm-bindgen = "0.2"
