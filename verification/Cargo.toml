[package]
name = "hanzi_lookup"
version = "0.1.0"
edition = "2021"
publish = false

[dependencies]
base64 = "0.13"
bincode = "1"
serde = { version = "1", features = ["derive"] }
serde_derive = "1"
serde_json = "1"
wasm-bindgen = { version = "0.2", features = ["serde-serialize"] }
