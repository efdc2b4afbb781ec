[package]
name = "clickhouse_utils"
version = "0.1.0"
edition = "2021"
publish = false

[dependencies]
clickhouse = "=0.15.2"
md5 = "=0.8.1"
serde = { version = "=1.0.229", features = ["derive"] }
tracing = "=0.1.44"
fastnum = { version = "=0.7.5", features = ["serde"] }
