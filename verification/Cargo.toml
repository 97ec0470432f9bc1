[package]
name = "kv_store"
version = "0.1.0"
edition = "2021"
publish = false

[dependencies]
bincode = "1"
crc = "3"
crossterm = "*"
ratatui = "*"
serde = { version = "1", features = ["derive"] }
thiserror = "1"
