[package]
name = "force_rs"
version = "0.1.0"
edition = "2021"
publish = false

[dependencies]
napi = "2"
napi-derive = "2"
rayon = "1"
