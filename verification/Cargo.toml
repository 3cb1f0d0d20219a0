[package]
name = "oauth_proxy"
version = "0.1.0"
edition = "2021"
publish = false

[dependencies]
base64 = "*"
rust-crypto = "*"
hmac = "*"
sha1 = "*"
rand = "*"
time = "*"
clap = "*"
