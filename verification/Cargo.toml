[package]
name = "diffame"
version = "0.1.0"
edition = "2021"
publish = false

[dependencies]
tree-sitter = "=0.25.10"
serde = { version = "=1.0.229", features = ["derive"] }
serde_json = "=1.0.154"
colored = "=3.1.1"
terminal_size = "=0.4.4"
unicode-width = "=0.2.3"
tree-sitter-bash = "=0.25.1"
tree-sitter-c = "=0.24.2"
tree-sitter-cpp = "=0.23.4"
tree-sitter-c-sharp = "=0.23.5"
tree-sitter-css = "=0.25.0"
tree-sitter-go = "=0.25.0"
tree-sitter-html = "=0.23.2"
tree-sitter-java = "=0.23.5"
tree-sitter-javascript = "=0.25.0"
tree-sitter-json = "=0.24.8"
tree-sitter-python = "=0.25.0"
tree-sitter-ruby = "=0.23.1"
tree-sitter-rust = "=0.24.2"
tree-sitter-typescript = "=0.23.2"
tree-sitter-yaml = "=0.7.2"
tree-sitter-toml-ng = "=0.7.0"
tree-sitter-lua = "=0.5.0"
tree-sitter-php = "=0.25.1"
tree-sitter-scala = "=0.26.4"
tree-sitter-kotlin-ng = "=1.1.0"
tree-sitter-md = "=0.5.4"
tree-sitter-xml = "=0.7.0"
tree-sitter-containerfile = "*"
tree-sitter-make = "*"
