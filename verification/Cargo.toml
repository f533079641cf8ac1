[package]
name = "buck_remote"
version = "0.1.0"
edition = "2021"
publish = false

[dependencies]
anyhow = "=1.0.104"
async-trait = "0.1"
futures = "=0.3.34"
parking_lot = "=0.12.5"
prost = "=0.13.5"
prost-types = "=0.13.5"
regex = "=1.13.1"
rusqlite = { version = "=0.32.1", features = ["bundled"] }
tokio = { version = "=1.54.1", features = ["rt", "sync", "time", "macros"] }
tokio-stream = "=0.1.19"
tonic = { version = "=0.12.3", features = ["tls-native-roots"] }
tracing = "=0.1.44"
