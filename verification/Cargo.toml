[package]
name = "taskstore"
version = "0.1.0"
edition = "2021"
publish = false

[dependencies]
serde_json = "1"
serde = { version = "1", features = ["derive"] }
rusqlite = "*"
eyre = "*"
tracing = "*"
tracing-subscriber = "*"
clap = { version = "4", features = ["derive"] }
colored = "*"
chrono = "*"
