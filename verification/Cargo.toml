[package]
name = "syntax_select"
version = "0.1.0"
edition = "2021"
publish = false

[dependencies]
ropey = { version = "1.6", default-features = false, features = ["simd"] }
tree-sitter = "0.20"

[dev-dependencies]
tree-sitter-rust = "0.20"
