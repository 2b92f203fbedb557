[package]
name = "mcp_parts"
version = "0.1.0"
edition = "2021"
publish = false

[dependencies]
chrono = "0.4"
serde = { version = "1", features = ["derive"] }
serde_json = "1"
rmcp = { version = "*", features = ["server", "macros"] }
async-trait = "0.1"
adk-mcp-sdk = "*"
