[package]
name = "gnubg"
version = "0.1.0"
edition = "2021"
publish = false

[dependencies]
clap = { version = "4", features = ["derive"] }
mimalloc = "*"
rayon = "1.10"
serde = { version = "1", features = ["derive"] }
serde_json = "1"
serde-wasm-bindgen = "*"
wasm-bindgen = "*"
