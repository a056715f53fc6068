[package]
name = "github_mcp_server"
version = "0.1.0"
edition = "2021"
publish = false

[dependencies]
anyhow = "=1.0.104"
async-trait = "=0.1.92"
octocrab = "=0.47.1"
tokio = { version = "=1.53.2", features = ["rt-multi-thread", "macros", "io-std", "io-util", "signal", "sync"] }
tracing = "=0.1.44"
tracing-subscriber = "=0.3.23"
