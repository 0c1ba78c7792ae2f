[package]
name = "parsecdb"
version = "0.1.0"
edition = "2021"
publish = false

[dependencies]
axum = "0.7"
bincode = "1"
rand = "0.8"
serde = { version = "1", features = ["derive"] }
tokio = { version = "1", features = ["full"] }
