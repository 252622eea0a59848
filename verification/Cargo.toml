[package]
name = "rhxn"
version = "0.1.0"
edition = "2021"
publish = false

[dependencies]
arc-swap = "*"
askama = "*"
axum = "*"
futures = "*"
moka = { version = "*", features = ["sync"] }
reqwest = { version = "*", features = ["json"] }
serde = { version = "*", features = ["derive"] }
timeago = { version = "*", default-features = false }
tokio = { version = "*", features = ["full"] }
tower-http = { version = "*", features = ["compression-gzip", "fs"] }
tracing = "*"
tracing-subscriber = { version = "*", features = ["env-filter"] }
