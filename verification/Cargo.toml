[package]
name = "mcp_multiplexer"
version = "0.5.0"
edition = "2021"
publish = false

[dependencies]
serde_json = "1"
serde = { version = "1", features = ["derive"] }
anyhow = "1"
clap = { version = "4", features = ["derive"] }
tokio = { version = "1", features = ["full"] }
rmcp = { version = "*", features = ["client", "server", "macros", "transport-io", "transport-child-process", "transport-streamable-http-client-reqwest", "auth"] }
tracing = "0.1"
tracing-subscriber = { version = "0.3", features = ["env-filter"] }
reqwest = { version = "*", default-features = false, features = ["json"] }
http = "*"
schemars = "*"
async-trait = "0.1"
