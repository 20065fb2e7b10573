[package]
name = "crypto_screener"
version = "0.1.0"
edition = "2021"
publish = false

[dependencies]
console_log = "1"
log = "0.4"
reqwest = { version = "0.12", default-features = false, features = ["json"] }
serde = { version = "1", features = ["derive"] }
serde_json = "1"
wasm-bindgen = "0.2"
wasm-bindgen-futures = "0.4"
yew = { version = "0.21", features = ["csr"] }
