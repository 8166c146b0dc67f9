[package]
name = "dping"
version = "0.1.0"
edition = "2021"
publish = false

[dependencies]
regex = "1"
regex-syntax = "*"
tokio = { version = "1", features = ["macros", "rt-multi-thread", "process", "time", "sync", "signal"] }
tokio-util = "*"
clap = { version = "4", features = ["derive"] }
crossterm = { version = "0.28", features = ["event-stream"] }
ratatui = "0.29"
chrono = "*"
csv = "*"
futures = "*"
netdev = "*"
anyhow = "1"
