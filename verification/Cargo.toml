[package]
name = "simple_pages"
version = "0.1.0"
edition = "2021"
publish = false

[dependencies]
argon2 = "0.5"
askama = "0.12"
axum = { version = "0.8", features = ["multipart"] }
flate2 = "1"
jsonwebtoken = "9"
rand = "0.8"
rusqlite = { version = "0.32", features = ["bundled"] }
serde = { version = "1", features = ["derive"] }
serde_json = "1"
tar = "0.4"
tempfile = "3"
tokio = { version = "1", features = ["full"] }
tower-http = { version = "0.6", features = ["limit"] }
tracing = "0.1"
tracing-subscriber = { version = "0.3", features = ["env-filter"] }
zip = { version = "2", default-features = false, features = ["deflate"] }
