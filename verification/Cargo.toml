[package]
name = "pdms_io"
version = "0.1.0"
edition = "2021"
publish = false

[dependencies]
anyhow = "1"
chrono = "0.4"
dashmap = "6"
fern = "0.7"
flume = "0.11"
futures = "0.3"
futures-util = "0.3"
indexmap = "2"
log = "0.4"
memchr = "=2.8.3"
notify = "8"
rand = "0.8"
serde = { version = "1", features = ["derive"] }
serde_json = "1"
tokio = { version = "1", features = ["full"] }
walkdir = "2"
