[package]
name = "sff_formatter"
version = "0.1.0"
edition = "2021"
publish = false

[dependencies]
tree-sitter = "*"
tree-sitter-python = "*"
clap = { version = "*", features = ["derive"] }
anyhow = "*"
env_logger = "*"
tempfile = "*"
