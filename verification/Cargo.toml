[package]
name = "mina_logs_service"
version = "0.1.0"
edition = "2021"
publish = false

[dependencies]
anyhow = "1"
async-ctrlc = "1.2"
clap = { version = "4", features = ["derive"] }
slog = "2"
sloggers = "2"
tokio = { version = "1", features = ["rt-multi-thread", "macros", "fs", "sync", "net"] }
warp = "0.3"

[dev-dependencies]
tar = "0.4"
