[package]
name = "shinri"
version = "0.1.0"
edition = "2021"
publish = false

[dependencies]
ruzstd = "=0.8.3"
rustc-hash = "2"
