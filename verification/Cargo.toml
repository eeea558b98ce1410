[package]
name = "traversal_core"
version = "0.1.0"
edition = "2021"
publish = false

[dependencies]
anyhow = "*"
const_format = "*"
grep = "*"
ignore = "*"
log = "*"
lsp-server = "*"
lsp-types = "*"
serde = "*"
serde_json = "*"
tracing = "*"
tracing-subscriber = { version = "*", features = ["env-filter"] }
