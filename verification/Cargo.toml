[package]
name = "retasync"
version = "0.1.0"
edition = "2021"
publish = false

[dependencies]
chrono = "*"
uuid = { version = "*", features = ["v7"] }
serde = { version = "*", features = ["derive"] }
serde_json = "*"
serde_yaml = "*"
toml = "*"
clap = { version = "*", features = ["derive"] }
anyhow = "*"
thiserror = "*"
tracing = "*"
tracing-subscriber = { version = "*", features = ["env-filter"] }
axum = "*"
tokio = { version = "*", features = ["full"] }
futures = "*"
tokio-stream = { version = "*", features = ["sync"] }
async-trait = "*"
sqlx = { version = "*", features = ["runtime-tokio", "sqlite"] }
