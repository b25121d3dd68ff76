[package]
name = "jigsaw"
version = "0.1.0"
edition = "2021"
publish = false

[dependencies]
hex = "0.4"
sha1 = "0.10"
rand = "0.9"
thiserror = "2"
anyhow = "1"
clap = { version = "4", features = ["derive"] }
tokio = { version = "1", features = ["rt-multi-thread", "macros", "time", "sync", "io-std", "io-util"] }
reqwest = { version = "0.12", default-features = false }
tracing = "0.1"
tracing-subscriber = "0.3"
