[package]
name = "systematics_embeddings"
version = "0.1.0"
edition = "2021"

[dependencies]
anyhow = "1"
axum = "*"
ndarray = "*"
ort = "2.0.0-rc.13"
serde = { version = "1", features = ["derive"] }
serde_json = "1"
tokenizers = "*"
tokio = { version = "1", features = ["macros", "rt-multi-thread", "net"] }
tower-http = { version = "*", features = ["cors"] }
tracing = "0.1"
tracing-subscriber = { version = "0.3", features = ["env-filter"] }
