[package]
name = "daily_feed"
version = "0.1.0"
edition = "2021"
publish = false

[dependencies]
chrono = "*"
reqwest = { version = "*", default-features = false }
rss = "*"
serde = { version = "*", features = ["derive"] }
serde_json = "*"
subprocess = "*"
tokio = { version = "*", features = ["rt-multi-thread", "macros", "sync"] }
toml = "*"
