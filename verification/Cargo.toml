[package]
name = "bnc"
version = "0.1.0"
edition = "2021"
publish = false

[dependencies]
bincode = "1.3"
lazy_static = "1.4"
rand = "0.8"
rocksdb = { version = "*", default-features = false }
ruc = "*"
serde = "1"
serde_json = "1"
