[package]
name = "lol-crawler"
version = "0.1.0"
edition = "2021"
publish = false

[dependencies]
anyhow = "1"
axum = "0.8"
chrono = "=0.4.45"
crc32fast = "=1.5.4"
dirs = "6"
futures = "0.3"
postcard = { version = "1", features = ["use-std"] }
rand = "=0.9.5"
redb = "2"
reqwest = { version = "0.12", default-features = false, features = ["json", "gzip"] }
roaring = "=0.10.12"
serde = { version = "1", features = ["derive"] }
serde_json = "=1.0.154"
sha2 = "=0.10.9"
tokio = { version = "1", features = ["full"] }
tracing = "0.1"
tracing-subscriber = { version = "0.3", features = ["env-filter"] }
zstd = { version = "=0.13.4", features = ["thin", "zdict_builder"] }

[dev-dependencies]
prost = "0.13"
