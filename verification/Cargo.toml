[package]
name = "prism_cache"
version = "0.1.0"
edition = "2021"
publish = false

[dependencies]
serde = { version = "*", features = ["derive"] }
serde_json = "*"
tokio = { version = "*", features = ["rt-multi-thread", "net", "io-util", "macros", "time"] }
toml = "*"
tracing = "*"
tracing-subscriber = "*"
