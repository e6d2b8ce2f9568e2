[package]
name = "infe"
version = "0.1.0"
edition = "2021"
publish = false

[dependencies]
pyo3 = { version = "0.24", features = ["abi3-py39", "extension-module"] }
serde = { version = "1", features = ["derive"] }
serde_json = "1"
thiserror = "2"
