[package]
name = "candlerunner"
version = "0.1.0"
edition = "2021"
publish = false

[dependencies]
uuid = { version = "*", features = ["v5"] }
tokio = { version = "*", features = ["rt-multi-thread", "macros", "sync", "time"] }
chrono = "*"
yaml-rust = "*"
anyhow = "*"
thiserror = "*"
clap = { version = "*", features = ["derive"] }
