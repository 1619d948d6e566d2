[package]
name = "ruju"
version = "0.1.0"
edition = "2021"
publish = false

[dependencies]
serde = { version = "1", features = ["derive"] }
serde_json = "1"
wasm-encoder = "*"
wasmparser = "*"
wasmprinter = "*"
