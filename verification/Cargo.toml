[package]
name = "stoat"
version = "0.1.0"
edition = "2021"
publish = false

[dependencies]
anyhow = "1"
dirs = "*"
futures = "0.3"
lsp-types = "*"
serde = { version = "1", features = ["derive"] }
serde_json = "1"
smol_str = "*"
toml = "*"
tracing = "0.1"
