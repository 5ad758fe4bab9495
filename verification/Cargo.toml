[package]
name = "ygg"
version = "0.1.0"
edition = "2021"
publish = false

[dependencies]
tree-sitter = "*"
tree-sitter-python = "*"
tree-sitter-rust = "*"
tree-sitter-md = "*"
streaming-iterator = "*"
clap = { version = "*", features = ["derive"] }
anyhow = "*"
thiserror = "*"
env_logger = "*"
log = "*"
