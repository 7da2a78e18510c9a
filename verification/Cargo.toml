[package]
name = "chimera"
version = "0.6.9"
edition = "2021"
publish = false

[dependencies]
serde = { version = "1", features = ["derive"] }
serde_json = "1"
uuid = { version = "1", features = ["v4"] }
chrono = "0.4"
axum = { version = "0.7", features = ["ws"] }
tokio = { version = "1", features = ["macros", "rt-multi-thread", "sync", "time", "net", "fs", "signal"] }
tower-http = { version = "0.5", features = ["cors"] }
clap = "4"
colored = "*"
csv = "1"
fake = "*"
futures = "0.3"
local-ip-address = "*"
rand = "0.9"
tracing = "0.1"
