[package]
name = "typst_grammar"
version = "0.1.0"
edition = "2021"
publish = false

[dependencies]
uuid = { version = "*", features = ["v4"] }
tower-lsp = "*"
tokio = { version = "*", features = ["full"] }
serde = { version = "*", features = ["derive"] }
serde_json = "*"
dashmap = "*"
languagetool-rust = { version = "*", default-features = false }
typst-syntax = "*"
futures = "*"
env_logger = "*"
