[package]
name = "dup_finder"
version = "0.1.0"
edition = "2021"
publish = false

[dependencies]
globset = "0.4"
sha2 = "0.10"
hex = "0.4"
csv = "1"
serde = { version = "1", features = ["derive"] }
serde_json = "1"
walkdir = "2"
image = { version = "0.25", default-features = false, features = ["jpeg", "png", "gif", "bmp", "webp", "tiff"] }
zip = { version = "2", default-features = false, features = ["deflate"] }
sevenz-rust = "0.6"
chrono = "0.4"
uuid = { version = "1", features = ["v4"] }
tokio = { version = "1", features = ["full"] }
tokio-util = { version = "0.7", features = ["io"] }
axum = "0.8"
tower-http = { version = "0.6", features = ["cors", "fs"] }
rayon = "1"
anyhow = "1"
tracing = "0.1"
tracing-subscriber = "0.3"
mime_guess = "2"
ffmpeg-next = "7"

[dev-dependencies]
tempfile = "3"
