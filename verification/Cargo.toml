[package]
name = "gander"
version = "0.1.0"
edition = "2021"
publish = false

[dependencies]
anyhow = "=1.0.104"
async-trait = "=0.1.92"
dirs = "=6.0.0"
futures = "=0.3.34"
indexmap = { version = "=2.14.2", features = ["serde"] }
russh = "=0.50.4"
russh-keys = "=0.49.2"
serde = { version = "=1.0.229", features = ["derive"] }
tokio = { version = "=1.53.2", features = ["macros", "rt-multi-thread", "io-util", "sync", "time", "net"] }
tokio-stream = "=0.1.19"
toml = "=0.8.23"
walkdir = "=2.5.0"
