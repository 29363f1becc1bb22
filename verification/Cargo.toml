[package]
name = "ip_location"
version = "0.1.0"
edition = "2021"
publish = false

[dependencies]
axum = "*"
axum-client-ip = "*"
csv = "*"
serde = { version = "*", features = ["derive"] }
serde_json = "*"
tokio = { version = "*", features = ["rt-multi-thread", "macros", "net", "signal"] }
zip = { version = "*", default-features = false, features = ["deflate"] }
