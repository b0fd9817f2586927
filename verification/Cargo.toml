[package]
name = "tls_validator"
version = "0.1.0"
edition = "2021"
publish = false

[dependencies]
anyhow = "1"
pnet = "*"
rustls = { version = "0.23", default-features = false, features = ["ring", "std"] }
webpki-roots = "*"
