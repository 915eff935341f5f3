[package]
name = "audiocache"
version = "0.1.0"
edition = "2021"
publish = false

[dependencies]
http = "0.2"
serde = { version = "1", features = ["derive"] }
serde_json = "1"
tokio = { version = "1", features = ["full"] }
futures = "0.3"
toml = "0.5"
tracing = "0.1"
tracing-subscriber = "0.3"
reqwest = { version = "0.11", default-features = false, features = ["json", "rustls-tls"] }
serenity = { version = "0.10", features = ["standard_framework", "voice", "cache"] }
songbird = "0.1"
sqlx = { version = "0.5", default-features = false, features = ["runtime-tokio-rustls", "sqlite"] }
