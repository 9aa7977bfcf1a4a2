[package]
name = "code_art"
version = "0.1.0"
edition = "2021"
publish = false

[dependencies]
image = "*"
tree-sitter = "*"
tree-sitter-rust = "*"
