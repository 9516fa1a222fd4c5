[package]
name = "duckdb_server"
version = "0.1.0"
edition = "2021"
publish = false

[dependencies]
sha2 = "=0.11.0"
lru = "=0.18.5"
anyhow = "*"
async-trait = "*"
axum = { version = "*", features = ["ws"] }
axum-server = { version = "*", features = ["tls-rustls"] }
axum-server-dual-protocol = "*"
clap = { version = "*", features = ["derive"] }
duckdb = { version = "=1.10506.0", features = ["r2d2"] }
r2d2 = "*"
arrow = "=58.4.0"
listenfd = "*"
serde = { version = "*", features = ["derive"] }
serde_json = "*"
tokio = { version = "*", features = ["full"] }
tower-http = { version = "*", features = ["cors", "compression-full", "trace"] }
tracing = "*"
tracing-subscriber = { version = "*", features = ["env-filter"] }
