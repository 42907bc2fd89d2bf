[package]
name = "thymeleaf_ls"
version = "0.1.0"
edition = "2021"
publish = false

[dependencies]
tree-sitter = "=0.27.1"
tree-sitter-html = "=0.20.4"
tower-lsp = "=0.20.0"
tokio = { version = "=1.54.1", features = ["full"] }
log = "=0.4.35"
structured-logger = "=1.0.5"
walkdir = "=2.5.0"
