[package]
name = "json_data_cache"
version = "0.1.0"
edition = "2021"
publish = false

[dependencies]
aho-corasick = "=1.1.5"
regex = "=1.13.1"
serde_json = { version = "=1.0.151", features = ["preserve_order"] }
