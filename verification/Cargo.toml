[package]
name = "meetily_speaker"
version = "0.1.0"
edition = "2021"
publish = false

[dependencies]
unicode-script = "0.5"
serde = { version = "1", features = ["derive"] }
serde_json = "1"
anyhow = "1"
log = "0.4"
chrono = "0.4"
uuid = { version = "1", features = ["v4"] }
tokio = { version = "1", features = ["rt", "sync"] }
sqlx = { version = "0.8", default-features = false, features = ["sqlite", "runtime-tokio"] }
once_cell = "1"
dirs = "5"
which = "*"
ffmpeg-sidecar = "*"
cpal = "0.15"
futures-channel = "0.3"
futures-util = "0.3"
tracing = "0.1"
env_logger = "*"
