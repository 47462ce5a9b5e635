[package]
name = "cronet_receiver"
version = "0.1.0"
edition = "2021"
publish = false

[dependencies]
bytes = "*"
regex = "*"
serde = { version = "*", features = ["derive"] }
serde_json = "*"
dashmap = "*"
nanoid = "*"
tokio = { version = "*", features = ["full"] }
tokio-util = { version = "*", features = ["codec"] }
futures = "*"
fred = "*"
anyhow = "*"
arc-swap = "*"
notify-debouncer-mini = "*"
once_cell = "*"
