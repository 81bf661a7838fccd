[package]
name = "crv_core"
version = "0.1.0"
edition = "2021"
publish = false

[dependencies]
regex = "1"
blake3 = "1"
crc32fast = "1"
lz4_flex = "0.11"
twox-hash = "1.6"
flate2 = "1"
serde = { version = "1", features = ["derive"] }
serde_json = "1"
chrono = { version = "0.4", features = ["serde"] }
bson = { version = "2", features = ["chrono-0_4"] }
thiserror = "1"
tracing = "0.1"
tracing-subscriber = { version = "0.3", features = ["env-filter", "json"] }
tracing-appender = "0.2"
tokio = { version = "1", features = ["full"] }
lru = "0.12"

[dev-dependencies]
tempfile = "3"
