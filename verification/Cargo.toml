[package]
name = "ssle_core"
version = "0.1.0"
edition = "2021"
publish = false

[dependencies]
num = "0.4"
bytemuck = "1"
rand = "0.10"
thiserror = "2"
tokio = { version = "1", features = ["full"] }
bytes = "1"
dashmap = "6"
anyhow = "1"
quinn = "0.11"
tracing = "0.1"
