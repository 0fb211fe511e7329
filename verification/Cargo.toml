[package]
name = "gift_swop"
version = "0.1.0"
edition = "2021"
publish = false

[dependencies]
base32 = "0.4"
flate2 = "1"
wasm-bindgen = "0.2"
js-sys = "0.3"

[dev-dependencies]
bincode = "1"
serde = "1"
