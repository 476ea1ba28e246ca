[package]
name = "biturbo"
version = "0.1.0"
edition = "2021"
publish = false

[dependencies]
sha2 = "=0.10.9"
hex = "=0.4.3"
uuid = { version = "=1.29.0", features = ["v4"] }
chrono = "=0.4.45"
serde = { version = "=1.0.229", features = ["derive"] }
serde_json = "=1.0.154"
rusqlite = { version = "=0.32.1", features = ["bundled"] }
dirs = "=5.0.1"
ignore = "=0.4.34"
walkdir = "=2.5.0"
tree-sitter = "=0.25.10"
tree-sitter-rust = "=0.24.2"
tree-sitter-python = "=0.25.0"
tree-sitter-javascript = "=0.25.0"
tree-sitter-typescript = "=0.23.2"
tree-sitter-go = "=0.25.0"
tree-sitter-swift = "*"
tree-sitter-php = "*"
tree-sitter-ruby = "*"
tree-sitter-java = "*"
tree-sitter-c = "*"
tree-sitter-cpp = "*"
tree-sitter-c-sharp = "*"
tree-sitter-bash = "*"
tree-sitter-html = "*"
tree-sitter-css = "*"
streaming-iterator = "=0.1.9"
turbovec = "=1.1.2"
fastembed = { version = "=4.9.1", default-features = false }
notify = "*"
