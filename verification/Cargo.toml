[package]
name = "cachetcp"
version = "0.1.0"
edition = "2021"
publish = false

[dependencies]
tokio = { version = "1", features = ["rt-multi-thread", "net", "fs", "io-util", "sync", "time", "macros"] }
clap = { version = "4", features = ["derive"] }
