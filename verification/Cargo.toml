[package]
name = "libedit"
version = "0.1.0"
edition = "2021"
publish = false

[dependencies]
crc32fast = "1"
js-sys = "0.3"
napi = { version = "3", features = ["serde-json"] }
napi-derive = "3"
parking_lot = "0.12"
serde = { version = "1", features = ["derive"] }
serde-wasm-bindgen = "0.6"
serde_json = "1"
similar = "2"
thiserror = "2"
wasm-bindgen = "0.2"
