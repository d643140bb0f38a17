[package]
name = "sundial"
version = "0.1.0"
edition = "2021"
publish = false

[dependencies]
comrak = { version = "*", default-features = false }
wasm-bindgen = "*"

[dev-dependencies]
regex = "*"
