[package]
name = "walrq"
version = "0.1.0"
edition = "2021"

[dependencies]
bytes = "1"
postcard = { version = "1", features = ["use-std"] }
serde = { version = "1", features = ["derive"] }
thiserror = "2"
tokio = { version = "1", features = ["full"] }
ulid = "1"
uuid = { version = "1", features = ["v4"] }
zstd = "0.13"
