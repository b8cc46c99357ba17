[package]
name = "bank_update"
version = "0.1.0"
edition = "2021"
publish = false

[dependencies]
base64 = "*"
openssl = "*"
zip = { version = "*", default-features = false, features = ["deflate"] }
