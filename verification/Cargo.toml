[package]
name = "dual_optimistic"
version = "0.1.0"
edition = "2021"
publish = false

[dependencies]
rand = "0.8"
sha3 = "0.10"
tokio = { version = "1", features = ["rt", "sync", "time"] }
