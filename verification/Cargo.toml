[package]
name = "wasm_codec"
version = "0.1.0"
edition = "2021"
publish = false

[dependencies]
tokio = { version = "1", features = ["io-util"] }
tokio-util = { version = "0.7", features = ["codec"] }
