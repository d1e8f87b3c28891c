[package]
name = "dfdaemon_core"
version = "0.1.0"
edition = "2021"
publish = false

[dependencies]
fastrand = "2"
tokio = { version = "1", features = ["sync", "time", "rt", "macros"] }
