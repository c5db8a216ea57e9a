[package]
name = "ilnyaplus"
version = "0.1.0"
edition = "2021"
publish = false

[dependencies]
openssl = "0.10"
uuid = { version = "1", features = ["v4"] }
rand = "0.8"
hex = "0.4"
anyhow = "1"
