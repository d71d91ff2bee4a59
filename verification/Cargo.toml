[package]
name = "ff_downloader"
version = "0.1.0"
edition = "2021"
publish = false

[dependencies]
scraper = "=0.29.0"
url = "=2.5.8"
serde = { version = "=1.0.229", features = ["derive"] }
serde_json = "=1.0.154"
tokio = { version = "=1.54.1", features = ["sync", "time", "fs", "io-util", "macros", "rt-multi-thread"] }
futures-util = "=0.3.34"
http = "=1.5.0"
