[package]
name = "cinccino"
version = "0.1.0"
edition = "2021"
publish = false

[dependencies]
ropey = "1"
tower-lsp = "0.20"
tokio = { version = "1", features = ["rt-multi-thread", "macros", "io-std"] }
dashmap = "5"
serde_json = "1"
tracing = "0.1"
tracing-subscriber = { version = "0.3", features = ["env-filter", "fmt", "registry"] }
