[package]
name = "kvs_broadcast"
version = "0.1.0"
edition = "2021"
publish = false

[dependencies]
bincode = "1.3"
clap = { version = "4", features = ["derive"] }
serde = { version = "1", features = ["derive"] }
serde_json = "1"
sled = "0.34"
slog = "2"
slog-scope = "4"
slog-term = "2"
