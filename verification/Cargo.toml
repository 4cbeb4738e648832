[package]
name = "bwipp"
version = "0.1.0"
edition = "2021"
publish = false

[dependencies]
datamatrix = "*"
qrcode = { version = "*", default-features = false }
