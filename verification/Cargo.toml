[package]
name = "sigma4_engine"
version = "0.1.0"
edition = "2021"
publish = false

[dependencies]
tokio = { version = "1", features = ["rt", "rt-multi-thread", "net", "io-util", "macros", "sync", "time"] }
tokio-rustls = { version = "0.26", default-features = false, features = ["ring"] }
