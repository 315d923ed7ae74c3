[package]
name = "fab"
version = "0.1.0"
edition = "2021"
publish = false

[dependencies]
tokio = { version = "0.2", features = ["full"] }
futures = "0.3"
indexmap = "1"
rand = "0.7"
serde = { version = "1", features = ["derive"] }
bincode = "1"
