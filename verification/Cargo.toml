[package]
name = "deploy_server"
version = "0.1.0"
edition = "2021"
publish = false

[dependencies]
base64 = "0.22"
regex = "1"
regex-syntax = "0.8"
serde = { version = "1", features = ["derive"] }
serde_json = "1"
tokio = { version = "1", features = ["full"] }
axum = "0.8"
tower-http = { version = "0.6", features = ["trace"] }
tracing = "0.1"
tracing-subscriber = { version = "0.3", features = ["env-filter"] }
minijinja = { version = "2", features = ["loader"] }
clap = { version = "4", features = ["derive"] }
reqwest = { version = "0.12", default-features = false, features = ["json"] }
zip = { version = "2", default-features = false, features = ["deflate"] }
