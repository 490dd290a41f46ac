[package]
name = "lsp_dispatch"
version = "0.1.0"
edition = "2021"
publish = false

[dependencies]
serde_json = "1"
jsonrpc-core = "18"
itertools = "*"
url = "2"
crossbeam-channel = "0.5"
lsp-types = "*"
