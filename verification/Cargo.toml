[package]
name = "rxml"
version = "0.9.0"
edition = "2021"
publish = false

[dependencies]
bytes = "1"
tokio = { version = "1", features = ["io-util"] }
futures-core = "0.3"
pin-project-lite = "0.2"
