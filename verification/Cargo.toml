[package]
name = "demucs_core"
version = "0.1.0"
edition = "2021"
publish = false

[dependencies]
burn = { version = "0.20", default-features = false }
