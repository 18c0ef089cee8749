[package]
name = "kgdb"
version = "1.0.0"
edition = "2021"
publish = false

[dependencies]
axum = "0.7"
dashmap = "6"
memchr = "2"
rand = "0.8"
serde = { version = "1", features = ["derive"] }
serde_json = "1"
tokio = { version = "1", features = ["macros", "net", "rt-multi-thread"] }
tracing = "0.1"
tracing-subscriber = { version = "0.3", features = ["env-filter"] }
