[package]
name = "kubeloupe"
version = "0.3.0"
edition = "2021"
publish = false

[dependencies]
anyhow = "1"
axum = "0.8"
form_urlencoded = "1"
regex-lite = "0.1"
reqwest = { version = "0.12", default-features = false, features = ["json", "rustls-tls"] }
serde = { version = "1", features = ["derive"] }
serde_json = "1"
tokio = { version = "1", features = ["rt", "macros", "net", "signal", "sync", "time"] }
