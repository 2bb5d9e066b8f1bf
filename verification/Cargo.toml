[package]
name = "wal_store"
version = "0.1.0"
edition = "2021"
publish = false

[dependencies]
serde_json = "1"
glommio = "*"
futures-lite = "*"

[dev-dependencies]
tempfile = "3"
