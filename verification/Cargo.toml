[package]
name = "data_bucket"
version = "0.1.0"
edition = "2021"
publish = false

[dependencies]
eyre = "=0.6.14"
indexset = { version = "=0.16.0", features = ["cdc", "concurrent", "multimap"] }
lockfree = "*"
rkyv = { version = "=0.8.18", features = ["uuid-1"] }
scc = "*"
tokio = { version = "=1.54.1", features = ["fs", "io-util"] }
uuid = { version = "=1.29.0", features = ["v4"] }
