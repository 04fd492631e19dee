[package]
name = "ckb_x64_simulator"
version = "0.1.0"
edition = "2021"
publish = false

[dependencies]
ckb-mock-tx-types = "*"
ckb-types = "*"
faster-hex = "*"
lazy_static = "*"
libc = "*"
libloading = "*"
serde = { version = "*", features = ["derive"] }
serde_derive = "*"
serde_json = "*"
