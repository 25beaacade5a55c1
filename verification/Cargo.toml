[package]
name = "log_hound"
version = "0.1.0"
edition = "2021"
publish = false

[dependencies]
anyhow = "*"
aws-config = "*"
aws-sdk-cloudwatchlogs = "*"
chrono = "*"
clap = { version = "*", features = ["derive", "env"] }
colored = "*"
dirs = "*"
futures = "*"
openssh = "*"
serde = { version = "*", features = ["derive"] }
serde_json = "*"
tokio = { version = "*", features = ["full"] }
toml = "*"
