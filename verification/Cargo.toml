[package]
name = "upstream-ingest"
version = "0.1.0"
edition = "2021"
publish = false

[dependencies]
anyhow = "=1.0.104"
futures = "=0.3.34"
mysql_async = { version = "=0.36.2", default-features = false, features = ["minimal-rust"] }
postgres-protocol = "=0.6.12"
serde = { version = "=1.0.229", features = ["derive"] }
thiserror = "=2.0.21"
tokio = { version = "=1.54.1", features = ["rt", "macros", "sync", "time"] }
tracing = "=0.1.44"
