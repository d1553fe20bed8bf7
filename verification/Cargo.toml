[package]
name = "netchat"
version = "0.1.0"
edition = "2021"
publish = false

[dependencies]
anyhow = "1"
blew = "*"
ciborium = "0.2"
futures-util = "0.3"
serde = { version = "1", features = ["derive"] }
tokio = { version = "1", features = ["io-std", "io-util", "macros", "net", "rt", "rt-multi-thread", "sync", "time"] }
tokio-stream = { version = "0.1", features = ["sync"] }
uuid = { version = "1", features = ["v4"] }
zbus = { version = "5", default-features = false, features = ["tokio"] }
