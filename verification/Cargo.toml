[package]
name = "kvs"
version = "0.1.0"
edition = "2021"
publish = false

[dependencies]
anyhow = "1"
argh = "0.1"
bincode = "1"
rmp-serde = "1"
serde = { version = "1", features = ["derive"] }
thiserror = "1"
