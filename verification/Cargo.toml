[package]
name = "rust_web_browser_engineering"
version = "0.1.0"
edition = "2021"
publish = false

[dependencies]
encoding_rs = "0.8"
flate2 = "1"
brotli = "*"
image = { version = "0.25", default-features = false, features = ["png", "jpeg", "gif", "webp"] }
native-tls = "0.2"
