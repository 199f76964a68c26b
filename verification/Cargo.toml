[package]
name = "parser_response"
version = "0.1.0"
edition = "2021"
publish = false

[dependencies]
http-bytes = "*"
httparse = "1"
serde = { version = "1", features = ["derive"] }
pyo3 = "0.20"
