[package]
name = "folio"
version = "0.1.0"
edition = "2021"
publish = false

[dependencies]
sha2 = "0.10"
hmac = "0.12"
base64 = "0.22"
subtle = "2"
argon2 = "0.5"
pbkdf2 = { version = "0.12", features = ["hmac"] }
uuid = { version = "1", features = ["v4"] }
serde = { version = "1", features = ["derive"] }
serde_json = "1"
url = "2"
pulldown-cmark = "0.12"
ammonia = "4"
axum = "0.8"
tokio = { version = "1", features = ["full"] }
tower-http = { version = "0.6", features = ["fs"] }
rusqlite = { version = "0.32", features = ["bundled"] }
tempfile = "3"
futures = "0.3"
