[package]
name = "dsa"
version = "0.1.0"
edition = "2021"
publish = false

[dependencies]
crypto-bigint = { version = "*", features = ["alloc"] }
sha2 = "*"
digest = "*"
signature = { version = "*", features = ["digest"] }
pkcs8 = { version = "*", features = ["alloc"] }
