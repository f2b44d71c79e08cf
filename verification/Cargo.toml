[package]
name = "wpl_format"
version = "0.1.0"
edition = "2021"
publish = false

[dependencies]
tree-sitter = "0.22"
