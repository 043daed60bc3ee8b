[package]
name = "weighflow"
version = "0.5.0"
edition = "2021"
publish = false

[dependencies]
hmac = "0.12"
sha2 = "0.10"
hex = "0.4"
tokio = { version = "1", features = ["full"] }
axum = { version = "0.8", features = ["ws"] }
tower-http = { version = "0.6", features = ["cors"] }
serde = { version = "1", features = ["derive"] }
serde_json = "1"
toml = "0.8"
serialport = { version = "4", default-features = false }
tokio-serial = { version = "5", default-features = false }
enigo = "0.3"
arboard = { version = "3", default-features = false }
tracing = "0.1"
tracing-subscriber = "0.3"
anyhow = "1"
thiserror = "2"
libc = "0.2"
