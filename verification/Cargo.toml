[package]
name = "routing"
version = "0.1.0"
edition = "2021"
publish = false

[dependencies]
ipnetwork = { version = "0.20", default-features = false }
pnet = "*"
