[package]
name = "multi_index_store"
version = "0.1.0"
edition = "2021"
publish = false

[dependencies]
multi_index_map = "*"
tokio = { version = "1", features = ["full"] }
flume = "*"
futures = "*"
anyhow = "1"
rand = "*"
