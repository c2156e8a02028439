[package]
name = "socket-metrics-exporter"
version = "0.1.0"
edition = "2021"
publish = false

[dependencies]
actix-web = { version = "4", default-features = false, features = ["macros"] }
clap = { version = "4", features = ["derive", "env"] }
prometheus = { version = "0.13", default-features = false }
thiserror = "1"
tokio = { version = "1", features = ["process", "time", "rt", "macros"] }
tracing = "0.1"
tracing-subscriber = { version = "0.3", features = ["env-filter", "fmt"] }
