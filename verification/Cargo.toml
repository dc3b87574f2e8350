[package]
name = "configmaton"
version = "0.1.0"
edition = "2021"
publish = false

[dependencies]
twox-hash = "2"
hashbrown = "0.15"
indexmap = "2"
serde = { version = "1", features = ["derive"] }
serde_json = "1"
clap = { version = "4", features = ["derive"] }
xxhash-rust = { version = "0.8", features = ["xxh64"] }
url = "2"
tokio = { version = "1", features = ["full"] }
hyper = { version = "1", features = ["full"] }
hyper-util = { version = "0.1", features = ["full"] }
http-body-util = "0.1"
tokio-rusqlite = "*"
