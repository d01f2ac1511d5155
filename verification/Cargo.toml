[package]
name = "treant_wasm"
version = "0.1.0"
edition = "2021"
publish = false

[dependencies]
treant = "=0.4.0"
wasm-bindgen = "=0.2.93"
rand = { version = "=0.8.8", features = ["small_rng"] }
console_error_panic_hook = "=0.1.7"
