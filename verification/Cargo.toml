[package]
name = "lspcore"
version = "0.1.0"
edition = "2021"
publish = false

[dependencies]
similar = { version = "*", features = ["text", "unicode"] }
pyo3 = "*"
tokio = { version = "*", features = ["full"] }
tower-lsp = "*"
