[package]
name = "rag-bone"
version = "0.1.0"
edition = "2021"
publish = false

[dependencies]
anyhow = "=1.0.104"
clap = { version = "=4.6.7", features = ["derive"] }
fastembed = { version = "=7.5.0", default-features = false, features = ["hf-hub-rustls-tls", "ort-load-dynamic"] }
hf-hub = { version = "=0.5.0", default-features = false, features = ["ureq", "rustls-tls"] }
ignore = "=0.4.34"
notify = "=8.2.1"
ort = { version = "=2.0.0-rc.15", default-features = false, features = ["coreml", "cuda", "directml"] }
postcard = { version = "=1.1.3", features = ["use-std"] }
rayon = "=1.12.0"
serde = { version = "=1.0.229", features = ["derive"] }
serde_json = "=1.0.154"
text-splitter = { version = "=0.33.1", features = ["code", "markdown"] }
toml = "=1.1.8"
tracing = "=0.1.44"
tracing-subscriber = "=0.3.23"
tree-sitter = "=0.27.1"
tree-sitter-c = "=0.24.2"
tree-sitter-cpp = "=0.23.4"
tree-sitter-go = "=0.25.0"
tree-sitter-java = "=0.23.5"
tree-sitter-javascript = "=0.25.0"
tree-sitter-python = "=0.25.0"
tree-sitter-rust = "=0.24.2"
tree-sitter-typescript = "=0.23.2"
xxhash-rust = { version = "=0.8.19", features = ["xxh3"] }

[lints]
rust = { unexpected_cfgs = { level = "warn", check-cfg = ["cfg(gpu)", "cfg(directml)", "cfg(coreml)"] } }
