[package]
name = "sabledb"
version = "0.1.0"
edition = "2021"
publish = false

[dependencies]
bytes = "1"
clap = { version = "4", features = ["derive"] }
redis = { version = "0.24", features = ["tls-rustls-insecure"] }
rustyline = { version = "13", features = ["with-sqlite-history"] }
tracing = "0.1"
tracing-subscriber = "0.3"
