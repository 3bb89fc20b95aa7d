[package]
name = "treeq"
version = "0.1.0"
edition = "2021"
publish = false

[dependencies]
clap = { version = "*", features = ["derive"] }
foldhash = "*"
ignore = "*"
indexmap = "*"
jaq-core = "*"
jaq-json = "*"
jaq-std = "*"
serde_json = "*"
tree-sitter = "*"
tree-sitter-language = "*"
tree-sitter-php = "*"
tree-sitter-rust = "*"
