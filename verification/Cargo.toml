[package]
name = "backend"
version = "0.1.0"
edition = "2021"
publish = false

[dependencies]
indexmap = { version = "1", features = ["serde-1"] }
fnv = "1"
serde = { version = "1", features = ["derive"] }
toml = "0.5"
bincode = "1"
wasm-bindgen = "0.2"
float-ord = "0.3"
console_error_panic_hook = "0.1"
