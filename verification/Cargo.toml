[package]
name = "ccl-8k"
version = "0.1.0"
edition = "2021"
publish = false

[dependencies]
filum = "*"
image = { version = "*", default-features = false, features = ["png"] }
rand = "0.8"
