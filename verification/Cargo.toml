[package]
name = "rocksqueue"
version = "0.1.0"
edition = "2021"
publish = false

[dependencies]
anyhow = "1"
axum = "0.7"
bincode = "1.3"
dashmap = "6"
dotenvy = "0.15"
hex = "0.4"
num_cpus = "1"
prost = "0.12"
rocksdb = { version = "0.22", default-features = false, features = ["multi-threaded-cf", "lz4", "zstd"] }
sd-notify = "0.4"
serde = { version = "1", features = ["derive"] }
thiserror = "1"
tokio = { version = "1", features = ["full"] }
tokio-stream = "0.1"
tonic = "0.11"
tonic-reflection = "0.11"
tracing = "0.1"
tracing-subscriber = { version = "0.3", features = ["env-filter"] }
uuid = { version = "1", features = ["v4"] }

[dev-dependencies]
tempfile = "3"
