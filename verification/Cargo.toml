[package]
name = "surveillance"
version = "0.1.0"
edition = "2021"
publish = false

[dependencies]
anyhow = "1"
axum = { version = "0.8", features = ["macros"] }
axum-server = { version = "0.7", features = ["tls-rustls"] }
base64 = "0.22"
dotenvy = "0.15"
log = "0.4"
opencv = { version = "0.94", default-features = false, features = ["imgcodecs", "imgproc", "objdetect"] }
rustls = { version = "0.23", default-features = false, features = ["ring", "std"] }
serde = { version = "1", features = ["derive"] }
serde_json = "1"
tokio = { version = "1", features = ["rt-multi-thread", "macros", "fs", "net", "sync", "signal", "time", "io-util"] }
tracing = "0.1"
tracing-subscriber = "0.3"
webrtc = "0.12"
webrtc-util = "0.10"
