[package]
name = "rust_redis"
version = "0.1.0"
edition = "2021"
publish = false

[dependencies]
atoi = "2"
bytes = "1"
clap = { version = "4", features = ["derive"] }
tokio = { version = "1", features = ["full"] }
