[package]
name = "liteparse"
version = "0.1.0"
edition = "2021"
publish = false

[dependencies]
blake3 = "1"
image = { version = "0.25", default-features = false, features = ["png"] }
js-sys = "0.3"
napi = "*"
napi-derive = "*"
pyo3 = "*"
reqwest = { version = "0.12", default-features = false, features = ["multipart"] }
rmp = "0.8"
serde = { version = "1", features = ["derive"] }
serde-wasm-bindgen = "*"
serde_json = "1"
tesseract-rs = { version = "*", default-features = false }
tokio = { version = "1", features = ["fs", "macros", "rt", "rt-multi-thread", "sync", "time"] }
wasm-bindgen = "0.2"
wasm-bindgen-futures = "0.4"
