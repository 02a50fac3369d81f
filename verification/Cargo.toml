[package]
name = "cirrust"
version = "0.1.0"
edition = "2021"
publish = false

[dependencies]
chrono = "0.4"
sha1 = "0.10"
md-5 = "0.10"
hex = "0.4"
percent-encoding = "2"
roxmltree = "0.20"
url = "2"
serde = { version = "1", features = ["derive"] }
serde_json = "1"
walkdir = "2"
tokio = { version = "1", features = ["rt", "fs", "macros", "time", "sync"] }
futures-util = "0.3"
reqwest = { version = "0.12", default-features = false, features = ["rustls-tls", "stream", "json"] }
