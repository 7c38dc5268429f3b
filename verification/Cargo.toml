[package]
name = "murmur"
version = "0.1.0"
edition = "2021"
publish = false

[dependencies]
anyhow = "1"
axum = { version = "0.7", features = ["multipart"] }
bzip2 = "0.4"
flate2 = "1"
futures-util = "0.3"
open = "5"
ort = { version = "2.0.0-rc.10", default-features = false, features = ["load-dynamic"] }
reqwest = { version = "0.12", default-features = false, features = ["json", "stream", "rustls-tls"] }
rubato = "0.15"
serde = { version = "1", features = ["derive"] }
serde_json = "1"
sherpa-onnx = "*"
symphonia = { version = "0.5", features = ["mp3", "aac", "alac", "isomp4"] }
tar = "0.4"
tempfile = "3"
tokio = { version = "1", features = ["full"] }
tokio-stream = { version = "0.1", features = ["sync"] }
tower-http = { version = "0.5", features = ["trace"] }
tracing = "0.1"
tracing-subscriber = { version = "0.3", features = ["env-filter"] }
uuid = { version = "1", features = ["v4"] }
whisper-rs = "*"
zip = { version = "2", default-features = false, features = ["deflate"] }
