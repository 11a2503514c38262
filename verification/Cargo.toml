[package]
name = "vrcp_lib"
version = "0.1.0"
edition = "2021"
publish = false

[dependencies]
axum = "*"
dirs = "*"
local-ip-address = "*"
rusqlite = { version = "*", features = ["bundled"] }
serde = { version = "*", features = ["derive"] }
serde_json = "*"
tokio = { version = "*", features = ["rt-multi-thread", "net", "time", "macros", "sync"] }
tower-http = { version = "*", features = ["cors"] }
