[package]
name = "payledger"
version = "0.1.0"
edition = "2021"
publish = false

[dependencies]
tokio = { version = "*", features = ["rt-multi-thread", "macros", "sync", "fs", "io-util"] }
tokio-stream = "*"
csv-async = { version = "*", features = ["tokio"] }
serde = { version = "*", features = ["derive"] }

[dev-dependencies]
rand = "*"
