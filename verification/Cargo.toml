[package]
name = "glaze_layout"
version = "0.1.0"
edition = "2021"
publish = false

[dependencies]
anyhow = "1"
arboard = { version = "3", default-features = false }
clap = { version = "4", features = ["derive"] }
futures-util = "0.3"
home = "0.5"
rfd = "0.15"
serde = { version = "1", features = ["derive"] }
serde_json = "1"
shell-util = "*"
tokio = { version = "1", features = ["full"] }
tokio-tungstenite = "*"
tracing = "0.1"
tracing-appender = "0.2"
tracing-subscriber = "0.3"
uuid = { version = "1", features = ["v4"] }
