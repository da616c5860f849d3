[package]
name = "rotom"
version = "0.1.0"
edition = "2021"
publish = false

[dependencies]
serde = { version = "=1.0.229", features = ["derive"] }
serde_json = "=1.0.154"
codespan-reporting = "=0.13.1"
lsp-types = "=0.97.0"
regex = "1"
dashmap = "6"
uxie = "*"
