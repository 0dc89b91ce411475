[package]
name = "ftg"
version = "0.1.0"
edition = "2021"
publish = false

[dependencies]
ropey = { version = "=1.6.1", default-features = false, features = ["simd"] }
ulid = "=1.2.1"
clap = { version = "=4.6.7", features = ["derive"] }
crossterm = { version = "=0.27.0", features = ["event-stream"] }
ratatui = { version = "=0.26.3", features = ["serde"] }
tokio = { version = "1", features = ["full"] }
tokio-tungstenite = "=0.21.0"
futures = "0.3"
http = "1"
reqwest = "=0.12.28"
poem = { version = "=3.1.12", features = ["websocket"] }
poem-openapi = "=5.1.16"
serde = { version = "1", features = ["derive"] }
serde_json = "1"
serde_yaml = "=0.9.34"
postcard = { version = "=1.1.3", features = ["use-std"] }
parking_lot = "0.12"
path-clean = "=1.0.1"
ansi_colours = "=1.2.3"
tracing = "0.1"
tracing-subscriber = { version = "=0.3.23", features = ["json"] }
