[package]
name = "autofilm"
version = "0.1.0"
edition = "2021"
publish = false

[dependencies]
urlencoding = "2"
regex = "1"
serde = { version = "1", features = ["derive"] }
serde_json = "1"
serde_yaml = "0.9"
tokio = { version = "1", features = ["full"] }
tokio-cron-scheduler = "*"
chrono = "0.4"
chrono-tz = "*"
clap = { version = "4", features = ["derive"] }
reqwest = { version = "0.12", default-features = false, features = ["json", "stream"] }
futures-util = "0.3"
tracing = "0.1"
tracing-subscriber = "0.3"
tracing-appender = "0.2"
thiserror = "*"
