[package]
name = "volumen"
version = "0.1.0"
edition = "2021"
publish = false

[dependencies]
tree-sitter = "*"
tree-sitter-python = "*"
tree-sitter-go = "*"
tree-sitter-java = "*"
tree-sitter-c-sharp = "*"
tree-sitter-php = "*"
tree-sitter-ruby = "*"
tree-sitter-typescript = "*"
serde = { version = "1", features = ["derive"] }
serde_json = "1"
