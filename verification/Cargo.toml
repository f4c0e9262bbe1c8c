[package]
name = "moose_core"
version = "0.1.0"
edition = "2021"
publish = false

[dependencies]
uuid = { version = "*", features = ["v4"] }
chrono = "*"
serde = { version = "*", features = ["derive"] }
serde_json = "*"
reqwest = { version = "*", default-features = false, features = ["json", "stream"] }
tokio = { version = "*", features = ["sync", "rt", "rt-multi-thread", "macros", "time"] }
futures = "*"
async-trait = "*"
rusqlite = { version = "*", features = ["bundled"] }
ndarray = "*"
parking_lot = "*"
dashmap = "*"
