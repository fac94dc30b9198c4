[package]
name = "rsbt_core"
version = "0.1.0"
edition = "2021"
publish = false

[dependencies]
rand = "0.8"
sha1 = "*"
serde = { version = "*", features = ["derive"] }
tokio = { version = "*", features = ["rt", "net", "io-util", "time", "sync", "macros"] }
memmap = "*"
