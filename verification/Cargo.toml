[package]
name = "mcp_search"
version = "0.1.0"
edition = "2021"
publish = false

[dependencies]
anyhow = "=1.0.104"
arrow-array = "=60.1.0"
arrow-schema = "=60.1.0"
async-trait = "=0.1.92"
chrono = "=0.4.45"
fastembed = { version = "=7.5.0", default-features = false, features = ["hf-hub-rustls-tls", "ort-load-dynamic"] }
globset = "=0.4.21"
ignore = "=0.4.34"
libloading = "=0.8.9"
notify = "=8.2.1"
reqwest = { version = "=0.12.28", default-features = false, features = ["blocking", "json"] }
serde = { version = "=1.0.229", features = ["derive"] }
serde_json = "=1.0.154"
tokio = { version = "=1.54.1", features = ["full"] }
tokio-stream = "=0.1.19"
toml = "=0.8.23"
tree-sitter = "=0.26.13"
uuid = { version = "=1.29.0", features = ["v4"] }
xxhash-rust = { version = "=0.8.19", features = ["xxh3"] }

[dev-dependencies]
tree-sitter-json = "=0.24.8"
