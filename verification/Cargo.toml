[package]
name = "scp_quorum"
version = "0.1.0"
edition = "2021"
publish = false

[dependencies]
slog = "2"
slog-atomic = "3"
slog-term = "2"
slog-async = "2"
slog-envlogger = "2"
slog-scope = "4"
serde = { version = "1", features = ["derive"] }
serde_json = "1"
