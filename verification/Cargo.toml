[package]
name = "rust_poker_env"
version = "0.1.0"
edition = "2021"
publish = false

[dependencies]
pyo3 = { version = "=0.21.2", features = ["extension-module"] }
rand = "=0.8.8"
rs_poker = { version = "=2.0.0", default-features = false }
