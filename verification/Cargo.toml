[package]
name = "btdua"
version = "0.1.0"
edition = "2021"
publish = false

[dependencies]
anyhow = "=1.0.104"
clap = { version = "=4.6.7", features = ["derive"] }
crossbeam-channel = "=0.5.17"
libc = "=0.2.191"
parking_lot = "=0.12.5"
ratatui = "=0.30.2"
serde = { version = "=1.0.229", features = ["derive"] }
serde_json = { version = "=1.0.154", features = ["unbounded_depth"] }
